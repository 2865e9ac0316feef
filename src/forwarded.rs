//! The structured `Forwarded` header: one occurrence is a comma-separated
//! list of stanzas, each a semicolon-separated list of `key=value` pairs.
use vstd::prelude::*;
use crate::error::{ForwardedHeaderValueParseError, ParseErrorView};
use crate::identifier::{
    Identifier, IdentifierView, Protocol, identifier_of, protocol_of,
    matches_ignore_case, parse_identifier, parse_protocol, eq_ignore_case,
};
use crate::text::{
    trim, index_of, split_on, pieces, ranges_within, trim_range, find_char, split_ranges,
    chars_of, string_of, lemma_index_of_bounds,
};

verus! {

/// One stanza of the header: the fields that one proxy declared.
pub struct ForwardedStanza {
    /// The `by` field: the interface where the request came in.
    pub forwarded_by: Option<Identifier>,
    /// The `for` field: the client that made the request.
    pub forwarded_for: Option<Identifier>,
    /// The `host` field, unquoted and unescaped.
    pub forwarded_host: Option<String>,
    /// The `proto` field.
    pub forwarded_proto: Option<Protocol>,
}

/// The mathematical value of a [`ForwardedStanza`].
pub struct StanzaView {
    pub forwarded_by: Option<IdentifierView>,
    pub forwarded_for: Option<IdentifierView>,
    pub forwarded_host: Option<Seq<char>>,
    pub forwarded_proto: Option<Protocol>,
}

pub open spec fn identifier_opt_view(o: Option<Identifier>) -> Option<IdentifierView> {
    match o {
        Some(id) => Some(id@),
        None => None,
    }
}

pub open spec fn string_opt_view(o: Option<String>) -> Option<Seq<char>> {
    match o {
        Some(s) => Some(s@),
        None => None,
    }
}

impl View for ForwardedStanza {
    type V = StanzaView;

    open spec fn view(&self) -> StanzaView {
        StanzaView {
            forwarded_by: identifier_opt_view(self.forwarded_by),
            forwarded_for: identifier_opt_view(self.forwarded_for),
            forwarded_host: string_opt_view(self.forwarded_host),
            forwarded_proto: self.forwarded_proto,
        }
    }
}

/// The stanza with no field set.
pub open spec fn empty_stanza() -> StanzaView {
    StanzaView {
        forwarded_by: None,
        forwarded_for: None,
        forwarded_host: None,
        forwarded_proto: None,
    }
}

/// `s` with each occurrence of the pair `a b` replaced by `r`, scanning left
/// to right without overlap, as `str::replace` does.
pub open spec fn replace_pair(s: Seq<char>, a: char, b: char, r: char) -> Seq<char>
    decreases s.len(),
{
    if s.len() >= 2 && s[0] == a && s[1] == b {
        seq![r] + replace_pair(s.skip(2), a, b, r)
    } else if s.len() >= 1 {
        seq![s[0]] + replace_pair(s.skip(1), a, b, r)
    } else {
        s
    }
}

/// The value of a `host` field: where it is wrapped in double quotes, the
/// text between them with `\"` read as `"` and then `\\` as `\`; else the
/// value as it stands.
pub open spec fn host_of(v: Seq<char>) -> Seq<char> {
    if v.len() >= 2 && v[0] == '"' && v.last() == '"' {
        replace_pair(replace_pair(v.subrange(1, v.len() - 1), '\\', '"', '"'), '\\', '\\', '\\')
    } else {
        v
    }
}

/// The stanza `st` after one part `part` of a stanza, already trimmed, is
/// applied: an empty part changes nothing, a part without `=` is an error,
/// a known key (in any ASCII case) sets its field, an unknown key is
/// ignored.
pub open spec fn apply_part(st: StanzaView, part: Seq<char>) -> Result<StanzaView, ParseErrorView> {
    let i = index_of(part, '=');
    let key = part.take(i);
    let value = part.skip(i + 1);
    if part.len() == 0 {
        Ok(st)
    } else if i >= part.len() {
        Err(ParseErrorView::InvalidPart(part))
    } else if matches_ignore_case(key, seq!['b', 'y']) {
        match identifier_of(value) {
            Ok(id) => Ok(
                StanzaView {
                    forwarded_by: Some(id),
                    forwarded_for: st.forwarded_for,
                    forwarded_host: st.forwarded_host,
                    forwarded_proto: st.forwarded_proto,
                },
            ),
            Err(e) => Err(e),
        }
    } else if matches_ignore_case(key, seq!['f', 'o', 'r']) {
        match identifier_of(value) {
            Ok(id) => Ok(
                StanzaView {
                    forwarded_by: st.forwarded_by,
                    forwarded_for: Some(id),
                    forwarded_host: st.forwarded_host,
                    forwarded_proto: st.forwarded_proto,
                },
            ),
            Err(e) => Err(e),
        }
    } else if matches_ignore_case(key, seq!['h', 'o', 's', 't']) {
        Ok(
            StanzaView {
                forwarded_by: st.forwarded_by,
                forwarded_for: st.forwarded_for,
                forwarded_host: Some(host_of(value)),
                forwarded_proto: st.forwarded_proto,
            },
        )
    } else if matches_ignore_case(key, seq!['p', 'r', 'o', 't', 'o']) {
        match protocol_of(value) {
            Some(p) => Ok(
                StanzaView {
                    forwarded_by: st.forwarded_by,
                    forwarded_for: st.forwarded_for,
                    forwarded_host: st.forwarded_host,
                    forwarded_proto: Some(p),
                },
            ),
            None => Err(ParseErrorView::InvalidProtocol),
        }
    } else {
        Ok(st)
    }
}

/// The stanza `st` after the parts `parts` are applied in order; the first
/// part that fails decides the error.
pub open spec fn apply_parts(st: StanzaView, parts: Seq<Seq<char>>) -> Result<StanzaView, ParseErrorView>
    decreases parts.len(),
{
    if parts.len() == 0 {
        Ok(st)
    } else {
        match apply_part(st, trim(parts[0])) {
            Ok(next) => apply_parts(next, parts.skip(1)),
            Err(e) => Err(e),
        }
    }
}

/// The stanza that `s` spells: its `;`-separated parts applied in order to
/// the empty stanza, later fields overwriting earlier ones.
pub open spec fn stanza_of(s: Seq<char>) -> Result<StanzaView, ParseErrorView> {
    apply_parts(empty_stanza(), split_on(trim(s), ';'))
}

/// The view of the result of a parse into a stanza.
pub open spec fn stanza_result_view(r: Result<ForwardedStanza, ForwardedHeaderValueParseError>) -> Result<StanzaView, ParseErrorView> {
    match r {
        Ok(st) => Ok(st@),
        Err(e) => Err(e@),
    }
}

/// `s[lo..hi]` with each pair `a b` replaced by `r`, as `replace_pair`
/// states it.
fn replace_pair_in(s: &Vec<char>, lo: usize, hi: usize, a: char, b: char, r: char) -> (out: Vec<char>)
    requires
        lo <= hi <= s.len(),
    ensures
        out@ == replace_pair(s@.subrange(lo as int, hi as int), a, b, r),
{
    let mut out: Vec<char> = Vec::new();
    let mut i = lo;
    while i < hi
        invariant
            lo <= i <= hi <= s.len(),
            replace_pair(s@.subrange(lo as int, hi as int), a, b, r) == out@ + replace_pair(
                s@.subrange(i as int, hi as int),
                a,
                b,
                r,
            ),
        decreases hi - i,
    {
        let ghost rest = s@.subrange(i as int, hi as int);
        if hi - i >= 2 && s[i] == a && s[i + 1] == b {
            assert(rest.skip(2) =~= s@.subrange(i + 2, hi as int));
            assert(out@.push(r) + replace_pair(rest.skip(2), a, b, r) =~= out@ + (seq![r]
                + replace_pair(rest.skip(2), a, b, r)));
            out.push(r);
            i = i + 2;
        } else {
            assert(rest.skip(1) =~= s@.subrange(i + 1, hi as int));
            assert(out@.push(s@[i as int]) + replace_pair(rest.skip(1), a, b, r) =~= out@ + (seq![
                s@[i as int],
            ] + replace_pair(rest.skip(1), a, b, r)));
            out.push(s[i]);
            i = i + 1;
        }
    }
    assert(out@ + replace_pair(s@.subrange(hi as int, hi as int), a, b, r) =~= out@);
    out
}

/// The value of a `host` field, as `host_of` states it.
fn parse_host(s: &Vec<char>, lo: usize, hi: usize) -> (r: String)
    requires
        lo <= hi <= s.len(),
    ensures
        r@ == host_of(s@.subrange(lo as int, hi as int)),
{
    let ghost v = s@.subrange(lo as int, hi as int);
    if hi - lo >= 2 && s[lo] == '"' && s[hi - 1] == '"' {
        assert(v.subrange(1, v.len() - 1) =~= s@.subrange(lo + 1, hi - 1));
        let once = replace_pair_in(s, lo + 1, hi - 1, '\\', '"', '"');
        assert(once@.subrange(0, once@.len() as int) =~= once@);
        let twice = replace_pair_in(&once, 0, once.len(), '\\', '\\', '\\');
        assert(twice@.subrange(0, twice@.len() as int) =~= twice@);
        string_of(&twice, 0, twice.len())
    } else {
        string_of(s, lo, hi)
    }
}

/// Applies one trimmed part `s[lo..hi]` of a stanza to `st`, as
/// `apply_part` states it.
fn parse_part(st: &mut ForwardedStanza, s: &Vec<char>, lo: usize, hi: usize) -> (r: Result<(), ForwardedHeaderValueParseError>)
    requires
        lo <= hi <= s.len(),
    ensures
        match apply_part(old(st)@, s@.subrange(lo as int, hi as int)) {
            Ok(next) => r is Ok && final(st)@ == next,
            Err(e) => r matches Err(err) && err@ == e,
        },
{
    let ghost part = s@.subrange(lo as int, hi as int);
    if lo == hi {
        return Ok(());
    }
    let i = find_char(s, lo, hi, '=');
    proof {
        lemma_index_of_bounds(part, '=');
    }
    if i == hi {
        return Err(ForwardedHeaderValueParseError::InvalidPart(string_of(s, lo, hi)));
    }
    assert(part.take(i - lo) =~= s@.subrange(lo as int, i as int));
    assert(part.skip(i - lo + 1) =~= s@.subrange(i + 1, hi as int));
    let by = ['b', 'y'];
    let for_ = ['f', 'o', 'r'];
    let host = ['h', 'o', 's', 't'];
    let proto = ['p', 'r', 'o', 't', 'o'];
    assert(by@ =~= seq!['b', 'y']);
    assert(for_@ =~= seq!['f', 'o', 'r']);
    assert(host@ =~= seq!['h', 'o', 's', 't']);
    assert(proto@ =~= seq!['p', 'r', 'o', 't', 'o']);
    if eq_ignore_case(s, lo, i, &by) {
        let id = parse_identifier(s, i + 1, hi);
        match id {
            Ok(id) => {
                st.forwarded_by = Some(id);
                Ok(())
            },
            Err(e) => Err(e),
        }
    } else if eq_ignore_case(s, lo, i, &for_) {
        let id = parse_identifier(s, i + 1, hi);
        match id {
            Ok(id) => {
                st.forwarded_for = Some(id);
                Ok(())
            },
            Err(e) => Err(e),
        }
    } else if eq_ignore_case(s, lo, i, &host) {
        st.forwarded_host = Some(parse_host(s, i + 1, hi));
        Ok(())
    } else if eq_ignore_case(s, lo, i, &proto) {
        match parse_protocol(s, i + 1, hi) {
            Some(p) => {
                st.forwarded_proto = Some(p);
                Ok(())
            },
            None => Err(ForwardedHeaderValueParseError::InvalidProtocol),
        }
    } else {
        Ok(())
    }
}

/// The stanza that `s[lo..hi]` spells, as `stanza_of` states it.
pub fn parse_stanza(s: &Vec<char>, lo: usize, hi: usize) -> (r: Result<ForwardedStanza, ForwardedHeaderValueParseError>)
    requires
        lo <= hi <= s.len(),
    ensures
        stanza_result_view(r) == stanza_of(s@.subrange(lo as int, hi as int)),
{
    let (a, b) = trim_range(s, lo, hi);
    let parts = split_ranges(s, a, b, ';');
    let ghost p = pieces(s@, parts@);
    let mut st = ForwardedStanza {
        forwarded_by: None,
        forwarded_for: None,
        forwarded_host: None,
        forwarded_proto: None,
    };
    let mut k: usize = 0;
    assert(p.skip(0) =~= p);
    while k < parts.len()
        invariant
            k <= parts.len(),
            lo <= a <= b <= hi <= s.len(),
            ranges_within(parts@, a as int, b as int),
            p == pieces(s@, parts@),
            p == split_on(trim(s@.subrange(lo as int, hi as int)), ';'),
            stanza_of(s@.subrange(lo as int, hi as int)) == apply_parts(st@, p.skip(k as int)),
        decreases parts.len() - k,
    {
        let (pa, pb) = trim_range(s, parts[k].0, parts[k].1);
        assert(p.skip(k as int)[0] == s@.subrange(parts@[k as int].0 as int, parts@[k as int].1 as int));
        assert(p.skip(k as int).skip(1) =~= p.skip(k + 1));
        match parse_part(&mut st, s, pa, pb) {
            Ok(()) => {},
            Err(e) => {
                return Err(e);
            },
        }
        k = k + 1;
    }
    Ok(st)
}

impl ForwardedStanza {
    /// The stanza that `s` spells, as `stanza_of` states it.
    pub fn from_str(s: &str) -> (r: Result<ForwardedStanza, ForwardedHeaderValueParseError>)
        ensures
            stanza_result_view(r) == stanza_of(s@),
    {
        let c = chars_of(s);
        assert(c@.subrange(0, c@.len() as int) =~= c@);
        parse_stanza(&c, 0, c.len())
    }
}

/// The stanza texts of one header occurrence `h`: its `,`-separated pieces,
/// trimmed, without the empty ones.
pub open spec fn header_items(h: Seq<char>) -> Seq<Seq<char>> {
    split_on(trim(h), ',').map_values(|p: Seq<char>| trim(p)).filter(|p: Seq<char>| p.len() > 0)
}

/// The ranges of the stanza texts of `s[lo..hi]`, as `header_items` states
/// them.
fn item_ranges(s: &Vec<char>, lo: usize, hi: usize) -> (r: Vec<(usize, usize)>)
    requires
        lo <= hi <= s.len(),
    ensures
        ranges_within(r@, 0, s.len() as int),
        pieces(s@, r@) == header_items(s@.subrange(lo as int, hi as int)),
{
    let (a, b) = trim_range(s, lo, hi);
    let parts = split_ranges(s, a, b, ',');
    let ghost p = pieces(s@, parts@);
    let ghost tr = |q: Seq<char>| trim(q);
    let ghost ne = |q: Seq<char>| q.len() > 0;
    let mut out: Vec<(usize, usize)> = Vec::new();
    let mut k: usize = 0;
    while k < parts.len()
        invariant
            k <= parts.len(),
            lo <= a <= b <= hi <= s.len(),
            ranges_within(parts@, a as int, b as int),
            ranges_within(out@, 0, s.len() as int),
            p == pieces(s@, parts@),
            p == split_on(trim(s@.subrange(lo as int, hi as int)), ','),
            tr == |q: Seq<char>| trim(q),
            ne == |q: Seq<char>| q.len() > 0,
            pieces(s@, out@) == p.take(k as int).map_values(tr).filter(ne),
        decreases parts.len() - k,
    {
        let (pa, pb) = trim_range(s, parts[k].0, parts[k].1);
        assert(p[k as int] == s@.subrange(parts@[k as int].0 as int, parts@[k as int].1 as int));
        let ghost item = s@.subrange(pa as int, pb as int);
        assert(p.take(k + 1).map_values(tr) =~= p.take(k as int).map_values(tr).push(item));
        proof {
            p.take(k as int).map_values(tr).lemma_filter_push(item, ne);
        }
        if pa < pb {
            let ghost before = out@;
            out.push((pa, pb));
            assert(pieces(s@, out@) =~= pieces(s@, before).push(item));
        }
        k = k + 1;
    }
    assert(p.take(parts.len() as int) =~= p);
    out
}

/// The stanza texts of one header occurrence: its `,`-separated pieces,
/// trimmed, without the empty ones.
pub fn values_from_header(header_value: &str) -> (r: Vec<String>)
    ensures
        r@.map_values(|v: String| v@) == header_items(header_value@),
{
    let c = chars_of(header_value);
    assert(c@.subrange(0, c@.len() as int) =~= c@);
    let items = item_ranges(&c, 0, c.len());
    let mut out: Vec<String> = Vec::new();
    let mut k: usize = 0;
    while k < items.len()
        invariant
            k <= items.len(),
            ranges_within(items@, 0, c.len() as int),
            pieces(c@, items@) == header_items(header_value@),
            out@.len() == k,
            out@.map_values(|v: String| v@) == pieces(c@, items@).take(k as int),
        decreases items.len() - k,
    {
        let v = string_of(&c, items[k].0, items[k].1);
        let ghost before = out@;
        out.push(v);
        assert(pieces(c@, items@)[k as int] == v@);
        assert forall|j: int| 0 <= j < k implies out@[j]@ == pieces(c@, items@)[j] by {
            assert(out@[j] == before[j]);
            assert(before.map_values(|v: String| v@)[j] == pieces(c@, items@).take(k as int)[j]);
        }
        assert(out@.map_values(|v: String| v@) =~= pieces(c@, items@).take(k + 1));
        k = k + 1;
    }
    assert(pieces(c@, items@).take(items.len() as int) =~= pieces(c@, items@));
    out
}

/// The stanzas that the texts `items` spell, in order; the first text that
/// fails decides the error.
pub open spec fn parse_stanzas(items: Seq<Seq<char>>) -> Result<Seq<StanzaView>, ParseErrorView>
    decreases items.len(),
{
    if items.len() == 0 {
        Ok(Seq::empty())
    } else {
        match stanza_of(items[0]) {
            Ok(st) => match parse_stanzas(items.skip(1)) {
                Ok(rest) => Ok(seq![st] + rest),
                Err(e) => Err(e),
            },
            Err(e) => Err(e),
        }
    }
}

/// The stanzas of one header occurrence `h`. An occurrence without stanzas
/// is `HeaderIsEmpty`; one whose stanza fails to parse fails as a whole.
pub open spec fn forwarded_value_of(h: Seq<char>) -> Result<Seq<StanzaView>, ParseErrorView> {
    match parse_stanzas(header_items(h)) {
        Ok(v) => if v.len() == 0 {
            Err(ParseErrorView::HeaderIsEmpty)
        } else {
            Ok(v)
        },
        Err(e) => Err(e),
    }
}

/// `done` put in front of the stanzas of `r`, if it holds stanzas.
pub open spec fn prefixed(done: Seq<StanzaView>, r: Result<Seq<StanzaView>, ParseErrorView>) -> Result<Seq<StanzaView>, ParseErrorView> {
    match r {
        Ok(rest) => Ok(done + rest),
        Err(e) => Err(e),
    }
}

/// The views of the stanzas `v`.
pub open spec fn stanzas_view(v: Seq<ForwardedStanza>) -> Seq<StanzaView> {
    v.map_values(|st: ForwardedStanza| st@)
}

/// The parsed stanzas of one occurrence of the header.
pub struct ForwardedHeaderValue {
    values: Vec<ForwardedStanza>,
}

impl View for ForwardedHeaderValue {
    type V = Seq<StanzaView>;

    closed spec fn view(&self) -> Seq<StanzaView> {
        stanzas_view(self.values@)
    }
}

/// The view of the result of a parse into a header value.
pub open spec fn value_result_view(r: Result<ForwardedHeaderValue, ForwardedHeaderValueParseError>) -> Result<Seq<StanzaView>, ParseErrorView> {
    match r {
        Ok(v) => Ok(v@),
        Err(e) => Err(e@),
    }
}

impl ForwardedHeaderValue {
    /// The stanzas of one occurrence `header_value` of the header, as
    /// `forwarded_value_of` states them.
    pub fn from_forwarded(header_value: &str) -> (r: Result<ForwardedHeaderValue, ForwardedHeaderValueParseError>)
        ensures
            value_result_view(r) == forwarded_value_of(header_value@),
    {
        let c = chars_of(header_value);
        assert(c@.subrange(0, c@.len() as int) =~= c@);
        let items = item_ranges(&c, 0, c.len());
        let ghost it = pieces(c@, items@);
        let mut values: Vec<ForwardedStanza> = Vec::new();
        let mut k: usize = 0;
        assert(it.skip(0) =~= it);
        assert(stanzas_view(values@) + Seq::<StanzaView>::empty() =~= stanzas_view(values@));
        while k < items.len()
            invariant
                k <= items.len(),
                ranges_within(items@, 0, c.len() as int),
                it == pieces(c@, items@),
                it == header_items(header_value@),
                parse_stanzas(it) == prefixed(stanzas_view(values@), parse_stanzas(it.skip(k as int))),
            decreases items.len() - k,
        {
            assert(it.skip(k as int)[0] == c@.subrange(items@[k as int].0 as int, items@[k as int].1 as int));
            assert(it.skip(k as int).skip(1) =~= it.skip(k + 1));
            match parse_stanza(&c, items[k].0, items[k].1) {
                Ok(st) => {
                    let ghost before = values@;
                    values.push(st);
                    assert(stanzas_view(values@) =~= stanzas_view(before).push(st@));
                    proof {
                        match parse_stanzas(it.skip(k + 1)) {
                            Ok(rest) => {
                                assert(stanzas_view(before) + (seq![st@] + rest) =~= stanzas_view(
                                    values@,
                                ) + rest);
                            },
                            Err(_) => {},
                        }
                    }
                },
                Err(e) => {
                    return Err(e);
                },
            }
            k = k + 1;
        }
        assert(it.skip(items.len() as int) =~= Seq::<Seq<char>>::empty());
        assert(stanzas_view(values@) + Seq::<StanzaView>::empty() =~= stanzas_view(values@));
        if values.len() == 0 {
            return Err(ForwardedHeaderValueParseError::HeaderIsEmpty);
        }
        Ok(ForwardedHeaderValue { values })
    }

    /// The stanzas of one occurrence `s` of the header, as
    /// `forwarded_value_of` states them.
    pub fn from_str(s: &str) -> (r: Result<ForwardedHeaderValue, ForwardedHeaderValueParseError>)
        ensures
            value_result_view(r) == forwarded_value_of(s@),
    {
        ForwardedHeaderValue::from_forwarded(s)
    }

    /// The stanzas, in the order in which they stood.
    pub fn values(&self) -> (r: &Vec<ForwardedStanza>)
        ensures
            stanzas_view(r@) == self@,
    {
        &self.values
    }

    /// The stanzas, in the order in which they stood, taken out of the value.
    pub fn into_values(self) -> (r: Vec<ForwardedStanza>)
        ensures
            stanzas_view(r@) == self@,
    {
        self.values
    }
}

} // verus!
