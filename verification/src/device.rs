//! The data model: addresses, device types, devices, and the parsing of
//! textual device descriptions into typed records.

use vstd::prelude::*;

verus! {

/// The failures that the library reports: a referenced device name that is
/// not registered, a malformed device description, or a registered device
/// without a graph entry (a broken builder/removal invariant).
#[derive(Clone, Copy, PartialEq, Eq, Structural, Debug)]
pub enum NetError {
    NotFound,
    ParseError,
    GraphInconsistent,
}

/// The kind of device.
#[derive(Clone, Copy, PartialEq, Eq, Structural, Debug)]
pub enum DeviceType {
    Desktop,
    Switch,
    Router,
}

/// A network address: four octets for V4, an opaque string form for V6.
#[derive(Clone, Debug)]
pub enum IPAddrKind {
    V4(u8, u8, u8, u8),
    V6(String),
}

/// The mathematical form of an address.
pub enum AddrKindView {
    V4(u8, u8, u8, u8),
    V6(Seq<char>),
}

impl View for IPAddrKind {
    type V = AddrKindView;

    open spec fn view(&self) -> AddrKindView {
        match self {
            IPAddrKind::V4(a, b, c, d) => AddrKindView::V4(*a, *b, *c, *d),
            IPAddrKind::V6(s) => AddrKindView::V6(s@),
        }
    }
}

/// A named network entity. The name is the unique identifier under which
/// the registry and the graph key their entries.
#[derive(Clone, Debug)]
pub struct Device {
    pub dtype: DeviceType,
    pub addr: IPAddrKind,
    pub name: String,
}

/// The mathematical form of a device.
pub struct DeviceView {
    pub dtype: DeviceType,
    pub addr: AddrKindView,
    pub name: Seq<char>,
}

impl View for Device {
    type V = DeviceView;

    open spec fn view(&self) -> DeviceView {
        DeviceView { dtype: self.dtype, addr: self.addr@, name: self.name@ }
    }
}

/// A decimal digit.
pub open spec fn is_digit(c: char) -> bool {
    '0' <= c && c <= '9'
}

/// The numeric value of a digit (0 for any other character).
pub open spec fn digit_val(c: char) -> nat {
    if is_digit(c) {
        ((c as u32) - ('0' as u32)) as nat
    } else {
        0
    }
}

/// Every character of `s` is a decimal digit.
pub open spec fn all_digits(s: Seq<char>) -> bool {
    forall|i: int| 0 <= i < s.len() ==> is_digit(s[i])
}

/// The number denoted by a digit string, most significant digit first.
pub open spec fn digits_val(s: Seq<char>) -> nat
    decreases s.len(),
{
    if s.len() == 0 {
        0
    } else {
        digits_val(s.drop_last()) * 10 + digit_val(s.last())
    }
}

/// One dotted-quad group: a non-empty digit string whose value is at
/// most 255.
pub open spec fn octet_spec(s: Seq<char>) -> Option<u8> {
    if s.len() > 0 && all_digits(s) && digits_val(s) <= 255 {
        Some(digits_val(s) as u8)
    } else {
        None
    }
}

/// The groups of `s` split at every `'.'` (always at least one group;
/// empty groups are kept).
pub open spec fn split_dots(s: Seq<char>) -> Seq<Seq<char>>
    decreases s.len(),
{
    if s.len() == 0 {
        seq![Seq::<char>::empty()]
    } else if s[0] == '.' {
        seq![Seq::<char>::empty()] + split_dots(s.drop_first())
    } else {
        let r = split_dots(s.drop_first());
        seq![seq![s[0]] + r[0]] + r.drop_first()
    }
}

/// A V4 address value: exactly four dot-separated octets.
pub open spec fn ipv4_spec(s: Seq<char>) -> Option<(u8, u8, u8, u8)> {
    let gs = split_dots(s);
    if gs.len() == 4 {
        match (octet_spec(gs[0]), octet_spec(gs[1]), octet_spec(gs[2]), octet_spec(gs[3])) {
            (Some(a), Some(b), Some(c), Some(d)) => Some((a, b, c, d)),
            _ => None,
        }
    } else {
        None
    }
}

/// What a `(kind token, value)` pair denotes: a parsed V4 address, an
/// opaque V6 string, or nothing when malformed.
pub open spec fn addr_spec(kind: Seq<char>, value: Seq<char>) -> Option<AddrKindView> {
    if kind == "V4"@ {
        match ipv4_spec(value) {
            Some(q) => Some(AddrKindView::V4(q.0, q.1, q.2, q.3)),
            None => None,
        }
    } else if kind == "V6"@ {
        Some(AddrKindView::V6(value))
    } else {
        None
    }
}

/// What a device-type token denotes.
pub open spec fn dtype_spec(t: Seq<char>) -> Option<DeviceType> {
    if t == "Desktop"@ {
        Some(DeviceType::Desktop)
    } else if t == "Switch"@ {
        Some(DeviceType::Switch)
    } else if t == "Router"@ {
        Some(DeviceType::Router)
    } else {
        None
    }
}

/// The character sequences of a list of input tokens.
pub open spec fn tokens_of(v: Seq<&str>) -> Seq<Seq<char>> {
    v.map_values(|s: &str| s@)
}

/// What a whole device-description line denotes:
/// `(name, type, address-kind, address-value)`.
pub open spec fn device_spec(info: Seq<Seq<char>>) -> Option<DeviceView> {
    if info.len() == 4 {
        match (dtype_spec(info[1]), addr_spec(info[2], info[3])) {
            (Some(t), Some(a)) => Some(DeviceView { dtype: t, addr: a, name: info[0] }),
            _ => None,
        }
    } else {
        None
    }
}

/// A digit string is worth at least as much as any of its prefixes.
pub proof fn lemma_digits_prefix(t: Seq<char>, k: int)
    requires
        0 <= k <= t.len(),
    ensures
        digits_val(t.take(k)) <= digits_val(t),
    decreases t.len() - k,
{
    if k == t.len() {
        assert(t.take(k) =~= t);
    } else {
        assert(t.take(k + 1).drop_last() =~= t.take(k));
        assert(digits_val(t.take(k)) <= digits_val(t.take(k + 1)));
        lemma_digits_prefix(t, k + 1);
    }
}

impl IPAddrKind {
    /// An exact copy of the address.
    pub fn duplicate(&self) -> (r: IPAddrKind)
        ensures
            r@ == self@,
    {
        match self {
            IPAddrKind::V4(a, b, c, d) => IPAddrKind::V4(*a, *b, *c, *d),
            IPAddrKind::V6(s) => IPAddrKind::V6(s.clone()),
        }
    }
}

/// A string with no dot splits into the single group that is the string
/// itself.
pub proof fn lemma_split_nodot(t: Seq<char>)
    requires
        forall|k: int| 0 <= k < t.len() ==> t[k] != '.',
    ensures
        split_dots(t) =~~= seq![t],
    decreases t.len(),
{
    if t.len() == 0 {
        assert(t =~= Seq::<char>::empty());
    } else {
        lemma_split_nodot(t.drop_first());
        assert(seq![t[0]] + t.drop_first() =~= t);
    }
}

/// Splitting at the first dot: the dot-free prefix is the first group,
/// and the rest splits on its own.
pub proof fn lemma_split_dot(t: Seq<char>, i: int)
    requires
        0 <= i < t.len(),
        t[i] == '.',
        forall|k: int| 0 <= k < i ==> t[k] != '.',
    ensures
        split_dots(t) =~~= seq![t.take(i)] + split_dots(t.skip(i + 1)),
    decreases i,
{
    if i == 0 {
        assert(t.take(0) =~= Seq::<char>::empty());
        assert(t.drop_first() =~= t.skip(1));
    } else {
        let u = t.drop_first();
        lemma_split_dot(u, i - 1);
        assert(u.skip(i) =~= t.skip(i + 1));
        assert(seq![t[0]] + u.take(i - 1) =~= t.take(i));
        let r = split_dots(u);
        assert(r =~~= seq![u.take(i - 1)] + split_dots(u.skip(i)));
        assert(r[0] == u.take(i - 1));
        assert(r.drop_first() =~~= split_dots(u.skip(i)));
    }
}

/// The position of the first dot at or after `from`, if any.
fn first_dot(s: &str, from: usize) -> (r: Option<usize>)
    requires
        from <= s@.len(),
    ensures
        match r {
            Some(j) => from <= j < s@.len() && s@[j as int] == '.' && (forall|k: int|
                from <= k < j ==> s@[k] != '.'),
            None => forall|k: int| from <= k < s@.len() ==> s@[k] != '.',
        },
{
    let n = s.unicode_len();
    let mut j = from;
    while j < n
        invariant
            from <= j <= n,
            n == s@.len(),
            forall|k: int| from <= k < j ==> s@[k] != '.',
        decreases n - j,
    {
        if s.get_char(j) == '.' {
            return Some(j);
        }
        j = j + 1;
    }
    None
}

/// Parses one dotted-quad group, exactly as `octet_spec` describes it.
fn parse_octet(s: &str) -> (r: Option<u8>)
    ensures
        r == octet_spec(s@),
{
    let n = s.unicode_len();
    if n == 0 {
        return None;
    }
    let mut acc: u32 = 0;
    let mut i: usize = 0;
    while i < n
        invariant
            n == s@.len(),
            0 < n,
            i <= n,
            all_digits(s@.take(i as int)),
            acc == digits_val(s@.take(i as int)),
            acc <= 255,
        decreases n - i,
    {
        let c = s.get_char(i);
        if c < '0' || c > '9' {
            assert(!all_digits(s@));
            return None;
        }
        let d: u32 = (c as u32) - 48;
        proof {
            assert(s@.take(i + 1).drop_last() =~= s@.take(i as int));
            assert(digit_val(c) == d);
        }
        let acc2: u32 = acc * 10 + d;
        if acc2 > 255 {
            proof {
                lemma_digits_prefix(s@, i + 1);
            }
            return None;
        }
        acc = acc2;
        i = i + 1;
    }
    proof {
        assert(s@.take(n as int) =~= s@);
    }
    Some(acc as u8)
}

/// Splits the suffix of `s` that starts at `from` into its dot-separated
/// groups.
fn split_value(s: &str, from: usize) -> (parts: Vec<String>)
    requires
        from <= s@.len(),
    ensures
        crate::strutil::names_of(parts@) == split_dots(s@.skip(from as int)),
    decreases s@.len() - from,
{
    let ghost t = s@.skip(from as int);
    let n = s.unicode_len();
    match first_dot(s, from) {
        None => {
            let g = s.substring_char(from, n).to_owned();
            let mut out: Vec<String> = Vec::new();
            out.push(g);
            proof {
                assert(forall|k: int| 0 <= k < t.len() ==> t[k] != '.');
                lemma_split_nodot(t);
                assert(g@ =~= t);
                assert(crate::strutil::names_of(out@) =~~= seq![t]);
            }
            out
        },
        Some(j) => {
            let g = s.substring_char(from, j).to_owned();
            let mut rest = split_value(s, j + 1);
            let ghost restv = crate::strutil::names_of(rest@);
            rest.insert(0, g);
            proof {
                let i = j - from;
                assert(t[i] == '.');
                assert(forall|k: int| 0 <= k < i ==> t[k] != '.');
                lemma_split_dot(t, i);
                assert(g@ =~= t.take(i));
                assert(t.skip(i + 1) =~= s@.skip(j + 1));
                assert(crate::strutil::names_of(rest@) =~~= seq![t.take(i)] + restv);
                assert(crate::strutil::names_of(rest@) =~~= split_dots(t));
            }
            rest
        },
    }
}

impl Device {
    /// An exact copy of the device record.
    pub fn duplicate(&self) -> (r: Device)
        ensures
            r@ == self@,
    {
        Device { dtype: self.dtype, addr: self.addr.duplicate(), name: self.name.clone() }
    }

    /// Parses the `(kind token, value)` pair of a device description into
    /// an address, failing with `ParseError` on a malformed token or
    /// dotted quad.
    pub fn evaluate_ipkind(ip_kind: &str, ip_value: &str) -> (r: Result<IPAddrKind, NetError>)
        ensures
            match r {
                Ok(a) => addr_spec(ip_kind@, ip_value@) == Some(a@),
                Err(e) => e == NetError::ParseError && addr_spec(ip_kind@, ip_value@) is None,
            },
    {
        if crate::strutil::str_eq(ip_kind, "V4") {
            let parts = split_value(ip_value, 0);
            proof {
                assert(ip_value@.skip(0) =~= ip_value@);
            }
            if parts.len() != 4 {
                return Err(NetError::ParseError);
            }
            let o0 = parse_octet(parts[0].as_str());
            let o1 = parse_octet(parts[1].as_str());
            let o2 = parse_octet(parts[2].as_str());
            let o3 = parse_octet(parts[3].as_str());
            match (o0, o1, o2, o3) {
                (Some(a), Some(b), Some(c), Some(d)) => Ok(IPAddrKind::V4(a, b, c, d)),
                _ => Err(NetError::ParseError),
            }
        } else if crate::strutil::str_eq(ip_kind, "V6") {
            Ok(IPAddrKind::V6(ip_value.to_owned()))
        } else {
            Err(NetError::ParseError)
        }
    }

    /// Parses a whole device-description line
    /// `[name, type, address-kind, address-value]` into a device record,
    /// failing with `ParseError` when any part is malformed.
    pub fn new(info_vec: Vec<&str>) -> (r: Result<Device, NetError>)
        ensures
            match r {
                Ok(d) => device_spec(tokens_of(info_vec@)) == Some(d@),
                Err(e) => e == NetError::ParseError && device_spec(tokens_of(info_vec@)) is None,
            },
    {
        if info_vec.len() != 4 {
            return Err(NetError::ParseError);
        }
        let dtype = if crate::strutil::str_eq(info_vec[1], "Desktop") {
            DeviceType::Desktop
        } else if crate::strutil::str_eq(info_vec[1], "Switch") {
            DeviceType::Switch
        } else if crate::strutil::str_eq(info_vec[1], "Router") {
            DeviceType::Router
        } else {
            return Err(NetError::ParseError);
        };
        let addr = match Self::evaluate_ipkind(info_vec[2], info_vec[3]) {
            Ok(a) => a,
            Err(_) => {
                return Err(NetError::ParseError);
            },
        };
        let name = info_vec[0].to_owned();
        Ok(Device { dtype, addr, name })
    }
}

} // verus!
