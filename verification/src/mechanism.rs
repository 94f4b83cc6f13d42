use vstd::prelude::*;

verus! {

/// Disposition attached to a mechanism: one of `+` (pass, the default,
/// elided in text), `-` (fail), `~` (soft fail) or `?` (neutral).
#[derive(Clone, Copy, Debug, PartialEq, Eq, Structural)]
pub enum Qualifier {
    Pass,
    Fail,
    SoftFail,
    Neutral,
}

/// The one-character text encoding of a qualifier; empty for `Pass`,
/// which is elided in rendered text.
pub open spec fn qualifier_text(q: Qualifier) -> Seq<char> {
    match q {
        Qualifier::Pass => ""@,
        Qualifier::Fail => "-"@,
        Qualifier::SoftFail => "~"@,
        Qualifier::Neutral => "?"@,
    }
}

impl Qualifier {
    /// Text encoding: one character, or empty for `Pass`.
    pub fn as_str(&self) -> (r: &'static str)
        ensures
            r@ == qualifier_text(*self),
    {
        match self {
            Qualifier::Pass => "",
            Qualifier::Fail => "-",
            Qualifier::SoftFail => "~",
            Qualifier::Neutral => "?",
        }
    }
}

/// The closed set of directive categories a record can hold.
#[derive(Clone, Copy, Debug, PartialEq, Eq, Structural)]
pub enum Kind {
    Redirect,
    A,
    MX,
    Include,
    IpV4,
    IpV6,
    Ptr,
    Exists,
    All,
}

/// The canonical text prefix of each kind. For `Include`, `Exists`,
/// `Redirect`, `IpV4` and `IpV6` the prefix already ends in the payload
/// delimiter; `A`, `MX` and `Ptr` take a `:` before a domain payload, and
/// `All` takes no payload at all.
pub open spec fn kind_text(k: Kind) -> Seq<char> {
    match k {
        Kind::Redirect => "redirect="@,
        Kind::A => "a"@,
        Kind::MX => "mx"@,
        Kind::Include => "include:"@,
        Kind::IpV4 => "ip4:"@,
        Kind::IpV6 => "ip6:"@,
        Kind::Ptr => "ptr"@,
        Kind::Exists => "exists:"@,
        Kind::All => "all"@,
    }
}

impl Kind {
    /// The canonical text prefix of this kind.
    pub fn as_str(&self) -> (r: &'static str)
        ensures
            r@ == kind_text(*self),
    {
        match self {
            Kind::Redirect => "redirect=",
            Kind::A => "a",
            Kind::MX => "mx",
            Kind::Include => "include:",
            Kind::IpV4 => "ip4:",
            Kind::IpV6 => "ip6:",
            Kind::Ptr => "ptr",
            Kind::Exists => "exists:",
            Kind::All => "all",
        }
    }

    /// True for the `Redirect` kind.
    pub fn is_redirect(&self) -> (r: bool)
        ensures
            r == (*self == Kind::Redirect),
    {
        matches!(self, Kind::Redirect)
    }

    /// True for the `A` kind.
    pub fn is_a(&self) -> (r: bool)
        ensures
            r == (*self == Kind::A),
    {
        matches!(self, Kind::A)
    }

    /// True for the `MX` kind.
    pub fn is_mx(&self) -> (r: bool)
        ensures
            r == (*self == Kind::MX),
    {
        matches!(self, Kind::MX)
    }

    /// True for the `Include` kind.
    pub fn is_include(&self) -> (r: bool)
        ensures
            r == (*self == Kind::Include),
    {
        matches!(self, Kind::Include)
    }

    /// True for either IP-network kind.
    pub fn is_ip(&self) -> (r: bool)
        ensures
            r == (*self == Kind::IpV4 || *self == Kind::IpV6),
    {
        matches!(self, Kind::IpV4 | Kind::IpV6)
    }

    /// True for the `IpV4` kind.
    pub fn is_ip_v4(&self) -> (r: bool)
        ensures
            r == (*self == Kind::IpV4),
    {
        matches!(self, Kind::IpV4)
    }

    /// True for the `IpV6` kind.
    pub fn is_ip_v6(&self) -> (r: bool)
        ensures
            r == (*self == Kind::IpV6),
    {
        matches!(self, Kind::IpV6)
    }

    /// True for the `Ptr` kind.
    pub fn is_ptr(&self) -> (r: bool)
        ensures
            r == (*self == Kind::Ptr),
    {
        matches!(self, Kind::Ptr)
    }

    /// True for the `Exists` kind.
    pub fn is_exists(&self) -> (r: bool)
        ensures
            r == (*self == Kind::Exists),
    {
        matches!(self, Kind::Exists)
    }

    /// True for the `All` kind.
    pub fn is_all(&self) -> (r: bool)
        ensures
            r == (*self == Kind::All),
    {
        matches!(self, Kind::All)
    }
}

} // verus!

verus! {

/// Spec-level image of an optional payload: the payload's view, if any.
pub open spec fn opt_view<T: View>(o: Option<T>) -> Option<T::V> {
    match o {
        Option::Some(t) => Option::Some(t@),
        Option::None => Option::None,
    }
}

/// Mathematical image of a mechanism: its kind, its qualifier and the
/// view of its payload, if it holds one.
pub ghost struct MechView<P> {
    pub kind: Kind,
    pub qualifier: Qualifier,
    pub payload: Option<P>,
}

/// Mathematical image of an IP network payload: the address family
/// (true for IPv4) and the canonical `address/prefix` text.
pub ghost struct NetView {
    pub v4: bool,
    pub repr: Seq<char>,
}

/// Error raised when a token cannot be turned into a mechanism.
#[derive(Debug)]
pub enum MechanismError {
    /// The token does not conform to any mechanism format; carries the token.
    NotValidMechanismFormat(String),
    /// An `ip4:` token held a network of the wrong family; carries its text.
    NotIP4Network(String),
    /// An `ip6:` token held a network of the wrong family; carries its text.
    NotIP6Network(String),
    /// The token's network literal could not be read; carries the diagnostic.
    NotValidIPNetwork(String),
}

/// Mathematical image of a `MechanismError`.
pub ghost enum MechErrView {
    NotValidMechanismFormat(Seq<char>),
    NotIP4Network(Seq<char>),
    NotIP6Network(Seq<char>),
    NotValidIPNetwork(Seq<char>),
}

impl View for MechanismError {
    type V = MechErrView;

    closed spec fn view(&self) -> MechErrView {
        match self {
            MechanismError::NotValidMechanismFormat(m) => MechErrView::NotValidMechanismFormat(
                m@,
            ),
            MechanismError::NotIP4Network(m) => MechErrView::NotIP4Network(m@),
            MechanismError::NotIP6Network(m) => MechErrView::NotIP6Network(m@),
            MechanismError::NotValidIPNetwork(m) => MechErrView::NotValidIPNetwork(m@),
        }
    }
}

impl PartialEq for MechanismError {
    fn eq(&self, other: &Self) -> (r: bool) {
        match (self, other) {
            (
                MechanismError::NotValidMechanismFormat(a),
                MechanismError::NotValidMechanismFormat(b),
            ) => *a == *b,
            (MechanismError::NotIP4Network(a), MechanismError::NotIP4Network(b)) => *a == *b,
            (MechanismError::NotIP6Network(a), MechanismError::NotIP6Network(b)) => *a == *b,
            (MechanismError::NotValidIPNetwork(a), MechanismError::NotValidIPNetwork(b)) => *a
                == *b,
            _ => false,
        }
    }
}

impl vstd::std_specs::cmp::PartialEqSpecImpl for MechanismError {
    open spec fn obeys_eq_spec() -> bool {
        true
    }

    open spec fn eq_spec(&self, other: &Self) -> bool {
        match (self, other) {
            (
                MechanismError::NotValidMechanismFormat(a),
                MechanismError::NotValidMechanismFormat(b),
            ) => a@ == b@,
            (MechanismError::NotIP4Network(a), MechanismError::NotIP4Network(b)) => a@ == b@,
            (MechanismError::NotIP6Network(a), MechanismError::NotIP6Network(b)) => a@ == b@,
            (MechanismError::NotValidIPNetwork(a), MechanismError::NotValidIPNetwork(b)) => a@
                == b@,
            _ => false,
        }
    }
}

/// The message text of each mechanism error.
pub open spec fn mech_err_text(e: MechErrView) -> Seq<char> {
    match e {
        MechErrView::NotValidMechanismFormat(m) => m
            + " does not conform to any Mechanism format."@,
        MechErrView::NotIP4Network(m) => "Was given ip4:"@ + m + ". This is not an ip4 network."@,
        MechErrView::NotIP6Network(m) => "Was given ip6:"@ + m + ". This is not an ip6 network."@,
        MechErrView::NotValidIPNetwork(m) => m + "."@,
    }
}

impl MechanismError {
    /// True when the token conformed to no mechanism format.
    pub fn is_invalid_format(&self) -> (r: bool)
        ensures
            r == (self@ is NotValidMechanismFormat),
    {
        matches!(self, Self::NotValidMechanismFormat(_))
    }

    /// True when an `ip4:` token held a network of the wrong family.
    pub fn is_not_ip4_network(&self) -> (r: bool)
        ensures
            r == (self@ is NotIP4Network),
    {
        matches!(self, Self::NotIP4Network(_))
    }

    /// True when an `ip6:` token held a network of the wrong family.
    pub fn is_not_ip6_network(&self) -> (r: bool)
        ensures
            r == (self@ is NotIP6Network),
    {
        matches!(self, Self::NotIP6Network(_))
    }

    /// True when a network literal could not be read at all.
    pub fn is_invalid_ip(&self) -> (r: bool)
        ensures
            r == (self@ is NotValidIPNetwork),
    {
        matches!(self, Self::NotValidIPNetwork(_))
    }

    /// The error's message text.
    pub fn to_string(&self) -> (r: String)
        ensures
            r@ == mech_err_text(self@),
    {
        match self {
            MechanismError::NotValidMechanismFormat(m) => {
                let mut s = m.clone();
                s.append(" does not conform to any Mechanism format.");
                s
            },
            MechanismError::NotIP4Network(m) => {
                let mut s = String::from_str("Was given ip4:");
                s.append(m.as_str());
                s.append(". This is not an ip4 network.");
                s
            },
            MechanismError::NotIP6Network(m) => {
                let mut s = String::from_str("Was given ip6:");
                s.append(m.as_str());
                s.append(". This is not an ip6 network.");
                s
            },
            MechanismError::NotValidIPNetwork(m) => {
                let mut s = m.clone();
                s.append(".");
                s
            },
        }
    }
}

} // verus!

verus! {

/// A single directive: its kind, its qualifier and an optional payload,
/// either free text or an IP network.
#[derive(Debug, Clone)]
pub struct Mechanism<T> {
    kind: Kind,
    qualifier: Qualifier,
    rrdata: Option<T>,
}

impl<T: View> View for Mechanism<T> {
    type V = MechView<T::V>;

    closed spec fn view(&self) -> MechView<T::V> {
        MechView { kind: self.kind, qualifier: self.qualifier, payload: opt_view(self.rrdata) }
    }
}

impl<T: View> Mechanism<T> {
    /// Unconditional constructor; validation happens at classification time.
    pub fn new(kind: Kind, qualifier: Qualifier, mechanism: Option<T>) -> (r: Self)
        ensures
            r@ == (MechView { kind, qualifier, payload: opt_view(mechanism) }),
    {
        Self { kind, qualifier, rrdata: mechanism }
    }

    /// True when the qualifier is `Pass`.
    pub fn is_pass(&self) -> (r: bool)
        ensures
            r == (self@.qualifier == Qualifier::Pass),
    {
        self.qualifier == Qualifier::Pass
    }

    /// True when the qualifier is `Fail`.
    pub fn is_fail(&self) -> (r: bool)
        ensures
            r == (self@.qualifier == Qualifier::Fail),
    {
        self.qualifier == Qualifier::Fail
    }

    /// True when the qualifier is `SoftFail`.
    pub fn is_softfail(&self) -> (r: bool)
        ensures
            r == (self@.qualifier == Qualifier::SoftFail),
    {
        self.qualifier == Qualifier::SoftFail
    }

    /// True when the qualifier is `Neutral`.
    pub fn is_neutral(&self) -> (r: bool)
        ensures
            r == (self@.qualifier == Qualifier::Neutral),
    {
        self.qualifier == Qualifier::Neutral
    }

    /// The mechanism's kind.
    pub fn kind(&self) -> (r: &Kind)
        ensures
            *r == self@.kind,
    {
        &self.kind
    }

    /// The mechanism's qualifier.
    pub fn qualifier(&self) -> (r: &Qualifier)
        ensures
            *r == self@.qualifier,
    {
        &self.qualifier
    }

    /// The mechanism's payload, if it holds one.
    pub fn mechanism(&self) -> (r: &Option<T>)
        ensures
            opt_view(*r) == self@.payload,
    {
        &self.rrdata
    }
}

/// Whether rendering must insert a `:` between the kind's prefix and the
/// payload: only for `A`, `MX` and `Ptr`, and only when the payload does not
/// already begin with its own separator (`:`, or `/` for the bare-prefix
/// network form of `A` and `MX`).
pub open spec fn needs_sep(k: Kind, p: Seq<char>) -> bool {
    match k {
        Kind::A | Kind::MX => p.len() > 0 && p[0] != '/' && p[0] != ':',
        Kind::Ptr => p.len() > 0 && p[0] != ':',
        _ => false,
    }
}

/// Canonical text of a text-payload mechanism: qualifier (elided for
/// `Pass`), kind prefix, separator if needed, payload.
pub open spec fn mech_text(m: MechView<Seq<char>>) -> Seq<char> {
    match m.payload {
        Option::Some(p) => if needs_sep(m.kind, p) {
            qualifier_text(m.qualifier) + kind_text(m.kind) + ":"@ + p
        } else {
            qualifier_text(m.qualifier) + kind_text(m.kind) + p
        },
        Option::None => qualifier_text(m.qualifier) + kind_text(m.kind),
    }
}

/// Canonical text of an IP-network mechanism: qualifier, kind prefix
/// (which already ends in `:`), canonical network text.
pub open spec fn ip_mech_text(m: MechView<NetView>) -> Seq<char> {
    match m.payload {
        Option::Some(p) => qualifier_text(m.qualifier) + kind_text(m.kind) + p.repr,
        Option::None => qualifier_text(m.qualifier) + kind_text(m.kind),
    }
}

impl Mechanism<String> {
    /// A `Redirect` mechanism.
    pub fn new_redirect(qualifier: Qualifier, mechanism: String) -> (r: Self)
        ensures
            r@ == (MechView {
                kind: Kind::Redirect,
                qualifier,
                payload: Some(mechanism@),
            }),
    {
        Mechanism::new(Kind::Redirect, qualifier, Some(mechanism))
    }

    /// An `A` mechanism with no payload.
    pub fn new_a_without_mechanism(qualifier: Qualifier) -> (r: Self)
        ensures
            r@ == (MechView { kind: Kind::A, qualifier, payload: None::<Seq<char>> }),
    {
        Mechanism::new(Kind::A, qualifier, None)
    }

    /// An `A` mechanism with a payload.
    pub fn new_a_with_mechanism(qualifier: Qualifier, mechanism: String) -> (r: Self)
        ensures
            r@ == (MechView { kind: Kind::A, qualifier, payload: Some(mechanism@) }),
    {
        Mechanism::new(Kind::A, qualifier, Some(mechanism))
    }

    /// An `MX` mechanism with no payload.
    pub fn new_mx_without_mechanism(qualifier: Qualifier) -> (r: Self)
        ensures
            r@ == (MechView { kind: Kind::MX, qualifier, payload: None::<Seq<char>> }),
    {
        Mechanism::new(Kind::MX, qualifier, None)
    }

    /// An `MX` mechanism with a payload.
    pub fn new_mx_with_mechanism(qualifier: Qualifier, mechanism: String) -> (r: Self)
        ensures
            r@ == (MechView { kind: Kind::MX, qualifier, payload: Some(mechanism@) }),
    {
        Mechanism::new(Kind::MX, qualifier, Some(mechanism))
    }

    /// An `Include` mechanism.
    pub fn new_include(qualifier: Qualifier, mechanism: String) -> (r: Self)
        ensures
            r@ == (MechView { kind: Kind::Include, qualifier, payload: Some(mechanism@) }),
    {
        Mechanism::new(Kind::Include, qualifier, Some(mechanism))
    }

    /// A `Ptr` mechanism with no payload.
    pub fn new_ptr_without_mechanism(qualifier: Qualifier) -> (r: Self)
        ensures
            r@ == (MechView { kind: Kind::Ptr, qualifier, payload: None::<Seq<char>> }),
    {
        Mechanism::new(Kind::Ptr, qualifier, None)
    }

    /// A `Ptr` mechanism with a payload.
    pub fn new_ptr_with_mechanism(qualifier: Qualifier, mechanism: String) -> (r: Self)
        ensures
            r@ == (MechView { kind: Kind::Ptr, qualifier, payload: Some(mechanism@) }),
    {
        Mechanism::new(Kind::Ptr, qualifier, Some(mechanism))
    }

    /// An `Exists` mechanism.
    pub fn new_exists(qualifier: Qualifier, mechanism: String) -> (r: Self)
        ensures
            r@ == (MechView { kind: Kind::Exists, qualifier, payload: Some(mechanism@) }),
    {
        Mechanism::new(Kind::Exists, qualifier, Some(mechanism))
    }

    /// An `All` mechanism.
    pub fn new_all(qualifier: Qualifier) -> (r: Self)
        ensures
            r@ == (MechView { kind: Kind::All, qualifier, payload: None::<Seq<char>> }),
    {
        Mechanism::new(Kind::All, qualifier, None)
    }

    /// The payload's text, or the kind's bare prefix when no payload is held.
    pub fn raw(&self) -> (r: &str)
        ensures
            self@.payload is Some ==> r@ == self@.payload->0,
            self@.payload is None ==> r@ == kind_text(self@.kind),
    {
        if self.rrdata.is_none() {
            self.kind().as_str()
        } else {
            self.rrdata.as_ref().unwrap().as_str()
        }
    }

    /// The mechanism's canonical text.
    pub fn string(&self) -> (r: String)
        ensures
            r@ == mech_text(self@),
    {
        self.build_string()
    }

    /// The mechanism's canonical text.
    pub fn to_string(&self) -> (r: String)
        ensures
            r@ == mech_text(self@),
    {
        self.build_string()
    }

    fn build_string(&self) -> (r: String)
        ensures
            r@ == mech_text(self@),
    {
        let mut out = String::new();
        out.append(self.qualifier.as_str());
        out.append(self.kind.as_str());
        if let Some(p) = &self.rrdata {
            let ps = p.as_str();
            let needs: bool = match self.kind {
                Kind::A | Kind::MX => {
                    if ps.unicode_len() == 0 {
                        false
                    } else {
                        let c = ps.get_char(0);
                        c != '/' && c != ':'
                    }
                },
                Kind::Ptr => {
                    if ps.unicode_len() == 0 {
                        false
                    } else {
                        ps.get_char(0) != ':'
                    }
                },
                _ => false,
            };
            if needs {
                out.append(":");
            }
            out.append(ps);
        }
        proof {
            assert(out@ =~= mech_text(self@));
        }
        out
    }
}

} // verus!

verus! {

/// What `ipnetwork::IpNetwork`'s string parse decides for a given character
/// sequence: `Err` with the diagnostic text when no network can be read from
/// it, otherwise `Ok` with the address family (true for IPv4) and the
/// canonical `address/prefix` text of the network that was read.
pub uninterp spec fn ip_net_outcome(s: Seq<char>) -> Result<(bool, Seq<char>), Seq<char>>;

/// An IP network payload: address family plus the canonical
/// `address/prefix` text, as decided by the `ipnetwork` crate.
#[derive(Debug, Clone)]
pub struct IpNet {
    v4: bool,
    repr: String,
}

impl View for IpNet {
    type V = NetView;

    closed spec fn view(&self) -> NetView {
        NetView { v4: self.v4, repr: self.repr@ }
    }
}

/// A network text is canonical when reading it back yields the same
/// family and the same text.
pub open spec fn net_canonical(n: NetView) -> bool {
    ip_net_outcome(n.repr) == Ok::<(bool, Seq<char>), Seq<char>>((n.v4, n.repr))
}

/// The characters that can appear in a canonical network text: decimal
/// digits and lowercase hexadecimal letters, the dot, the colon and the
/// slash.
pub open spec fn ip_text_char(c: char) -> bool {
    c == '0' || c == '1' || c == '2' || c == '3' || c == '4' || c == '5' || c == '6' || c == '7'
        || c == '8' || c == '9' || c == 'a' || c == 'b' || c == 'c' || c == 'd' || c == 'e' || c
        == 'f' || c == '.' || c == ':' || c == '/'
}

/// A network payload in good standing: canonical, and written in the
/// canonical character set.
pub open spec fn net_wf(n: NetView) -> bool {
    net_canonical(n) && n.repr.len() > 0 && (forall|i: int|
        0 <= i < n.repr.len() ==> ip_text_char(#[trigger] n.repr[i]))
}

/// Relies on `ipnetwork::IpNetwork`'s `FromStr` and `Display`: the parse
/// outcome is a function of the characters alone (an IPv4 reading is tried
/// first, then IPv6, and the error carries a diagnostic built from the
/// input); `Display` prints the network as `address/prefix`, so the text
/// is never empty and is drawn from the decimal digits, the lowercase
/// hexadecimal letters, `.`, `:` and `/`; and parsing that canonical text
/// returns the same network again (the standard library's address types
/// print and re-read exactly, and the printed prefix is a number within
/// range).
#[verifier::external_body]
fn parse_ip_network(s: &str) -> (r: Result<IpNet, String>)
    ensures
        (match r {
            Ok(n) => ip_net_outcome(s@) == Ok::<(bool, Seq<char>), Seq<char>>((n@.v4, n@.repr))
                && net_wf(n@),
            Err(d) => ip_net_outcome(s@) is Err && d@ == ip_net_outcome(s@)->Err_0,
        }),
{
    match s.parse::<ipnetwork::IpNetwork>() {
        Ok(ipnetwork::IpNetwork::V4(n)) => Ok(IpNet { v4: true, repr: n.to_string() }),
        Ok(ipnetwork::IpNetwork::V6(n)) => Ok(IpNet { v4: false, repr: n.to_string() }),
        Err(e) => Err(e.to_string()),
    }
}

impl IpNet {
    /// Reads an IP network from its text form; on failure returns the
    /// diagnostic text.
    pub fn from_str(s: &str) -> (r: Result<IpNet, String>)
        ensures
            r is Ok <==> ip_net_outcome(s@) is Ok,
            r is Ok ==> ip_net_outcome(s@) == Ok::<(bool, Seq<char>), Seq<char>>(
                (r->Ok_0@.v4, r->Ok_0@.repr),
            ) && net_wf(r->Ok_0@),
            r is Err ==> r->Err_0@ == ip_net_outcome(s@)->Err_0,
    {
        parse_ip_network(s)
    }

    /// True for an IPv4 network.
    pub fn is_ipv4(&self) -> (r: bool)
        ensures
            r == self@.v4,
    {
        self.v4
    }

    /// True for an IPv6 network.
    pub fn is_ipv6(&self) -> (r: bool)
        ensures
            r == !self@.v4,
    {
        !self.v4
    }

    /// The canonical `address/prefix` text.
    pub fn to_string(&self) -> (r: String)
        ensures
            r@ == self@.repr,
    {
        self.repr.clone()
    }
}

impl Mechanism<IpNet> {
    /// An IP mechanism whose kind follows the network's address family.
    pub fn new_ip(qualifier: Qualifier, mechanism: IpNet) -> (r: Self)
        ensures
            r@ == (MechView {
                kind: if mechanism@.v4 {
                    Kind::IpV4
                } else {
                    Kind::IpV6
                },
                qualifier,
                payload: Some(mechanism@),
            }),
    {
        if mechanism.is_ipv4() {
            Mechanism::new_ip4(qualifier, mechanism)
        } else {
            Mechanism::new_ip6(qualifier, mechanism)
        }
    }

    /// An `IpV4`-kind mechanism holding the given network.
    pub fn new_ip4(qualifier: Qualifier, mechanism: IpNet) -> (r: Self)
        ensures
            r@ == (MechView { kind: Kind::IpV4, qualifier, payload: Some(mechanism@) }),
    {
        Mechanism::new(Kind::IpV4, qualifier, Some(mechanism))
    }

    /// An `IpV6`-kind mechanism holding the given network.
    pub fn new_ip6(qualifier: Qualifier, mechanism: IpNet) -> (r: Self)
        ensures
            r@ == (MechView { kind: Kind::IpV6, qualifier, payload: Some(mechanism@) }),
    {
        Mechanism::new(Kind::IpV6, qualifier, Some(mechanism))
    }

    /// An IP mechanism read from a network's text form; on failure returns
    /// the diagnostic text.
    pub fn new_ip_from_str(qualifier: Qualifier, s: &str) -> (r: Result<Mechanism<IpNet>, String>)
        ensures
            r is Ok <==> ip_net_outcome(s@) is Ok,
            r is Ok ==> {
                let n = r->Ok_0@.payload->0;
                &&& ip_net_outcome(s@) == Ok::<(bool, Seq<char>), Seq<char>>((n.v4, n.repr))
                &&& net_wf(n)
                &&& r->Ok_0@ == (MechView {
                    kind: if n.v4 {
                        Kind::IpV4
                    } else {
                        Kind::IpV6
                    },
                    qualifier,
                    payload: Some(n),
                })
            },
            r is Err ==> r->Err_0@ == ip_net_outcome(s@)->Err_0,
    {
        match IpNet::from_str(s) {
            Ok(ip) => Ok(Mechanism::new_ip(qualifier, ip)),
            Err(e) => Err(e),
        }
    }

    /// The canonical text of the network payload.
    pub fn raw(&self) -> (r: String)
        requires
            self@.payload is Some,
        ensures
            r@ == self@.payload->0.repr,
    {
        self.rrdata.as_ref().unwrap().to_string()
    }

    /// The mechanism's canonical text.
    pub fn string(&self) -> (r: String)
        ensures
            r@ == ip_mech_text(self@),
    {
        self.build_string()
    }

    /// The mechanism's canonical text.
    pub fn to_string(&self) -> (r: String)
        ensures
            r@ == ip_mech_text(self@),
    {
        self.build_string()
    }

    fn build_string(&self) -> (r: String)
        ensures
            r@ == ip_mech_text(self@),
    {
        let mut out = String::new();
        out.append(self.qualifier.as_str());
        out.append(self.kind.as_str());
        if let Some(p) = &self.rrdata {
            out.append(p.repr.as_str());
        }
        proof {
            assert(out@ =~= ip_mech_text(self@));
        }
        out
    }

    /// The network payload.
    pub fn as_network(&self) -> (r: &IpNet)
        requires
            self@.payload is Some,
        ensures
            r@ == self@.payload->0,
    {
        self.rrdata.as_ref().unwrap()
    }
}

} // verus!

verus! {

use crate::helpers::{
    ip_token_spec, last_index_char, lemma_last_index_of_char, return_and_remove_qualifier,
    seq_starts_with, str_contains, str_starts_with, string_token_spec,
};

impl Mechanism<IpNet> {
    /// Classifies a token that names an IP network: an optional qualifier,
    /// an `ip4:` or `ip6:` prefix, and a network literal, whose address
    /// family must agree with the prefix.
    pub fn from_str(s: &str) -> (r: Result<Mechanism<IpNet>, MechanismError>)
        ensures
            r is Ok <==> ip_token_spec(s@) is Ok,
            r is Ok ==> r->Ok_0@ == ip_token_spec(s@)->Ok_0 && net_wf(r->Ok_0@.payload->0),
            r is Err ==> r->Err_0@ == ip_token_spec(s@)->Err_0,
    {
        proof {
            reveal_strlit("ip4:");
            reveal_strlit("ip6:");
        }
        if str_contains(s, "ip4:") || str_contains(s, "ip6:") {
            let (q, rest) = return_and_remove_qualifier(s);
            let rn = rest.unicode_len();
            if str_starts_with(rest, "ip4:") {
                let body = rest.substring_char(4, rn);
                match parse_ip_network(body) {
                    Ok(n) => {
                        if n.is_ipv4() {
                            Ok(Mechanism::new_ip4(q, n))
                        } else {
                            Err(MechanismError::NotIP4Network(n.to_string()))
                        }
                    },
                    Err(d) => Err(MechanismError::NotValidIPNetwork(d)),
                }
            } else if str_starts_with(rest, "ip6:") {
                let body = rest.substring_char(4, rn);
                match parse_ip_network(body) {
                    Ok(n) => {
                        if n.is_ipv6() {
                            Ok(Mechanism::new_ip6(q, n))
                        } else {
                            Err(MechanismError::NotIP6Network(n.to_string()))
                        }
                    },
                    Err(d) => Err(MechanismError::NotValidIPNetwork(d)),
                }
            } else {
                Err(MechanismError::NotValidMechanismFormat(s.to_owned()))
            }
        } else {
            Err(MechanismError::NotValidMechanismFormat(s.to_owned()))
        }
    }
}

impl Mechanism<String> {
    /// Classifies a token of the `redirect=` or `include:` shape; any other
    /// token is refused as not conforming to a mechanism format.
    pub fn from_str(s: &str) -> (r: Result<Mechanism<String>, MechanismError>)
        ensures
            r is Ok <==> string_token_spec(s@) is Ok,
            r is Ok ==> r->Ok_0@ == string_token_spec(s@)->Ok_0,
            r is Err ==> r->Err_0@ == string_token_spec(s@)->Err_0,
    {
        let n = s.unicode_len();
        if str_contains(s, "redirect=") {
            match last_index_char(s, '=') {
                Some(i) => {
                    proof {
                        lemma_last_index_of_char(s@, '=');
                    }
                    let payload = s.substring_char(i + 1, n);
                    Ok(Mechanism::new_redirect(Qualifier::Pass, payload.to_owned()))
                },
                None => {
                    proof {
                        reveal_strlit("redirect=");
                        lemma_last_index_of_char(s@, '=');
                        let w = choose|i: int|
                            0 <= i && i + "redirect="@.len() <= s@.len()
                                && #[trigger] s@.subrange(i, i + "redirect="@.len()) == "redirect="@;
                        assert(s@.subrange(w, w + 9)[8] == s@[w + 8]);
                        assert(false);
                    }
                    Err(MechanismError::NotValidMechanismFormat(s.to_owned()))
                },
            }
        } else if str_contains(s, "include:") {
            let q = return_and_remove_qualifier(s).0;
            match last_index_char(s, ':') {
                Some(i) => {
                    proof {
                        lemma_last_index_of_char(s@, ':');
                    }
                    let payload = s.substring_char(i + 1, n);
                    Ok(Mechanism::new_include(q, payload.to_owned()))
                },
                None => {
                    proof {
                        reveal_strlit("include:");
                        lemma_last_index_of_char(s@, ':');
                        let w = choose|i: int|
                            0 <= i && i + "include:"@.len() <= s@.len()
                                && #[trigger] s@.subrange(i, i + "include:"@.len()) == "include:"@;
                        assert(s@.subrange(w, w + 8)[7] == s@[w + 7]);
                        assert(false);
                    }
                    Err(MechanismError::NotValidMechanismFormat(s.to_owned()))
                },
            }
        } else {
            Err(MechanismError::NotValidMechanismFormat(s.to_owned()))
        }
    }
}

} // verus!

verus! {

/// The `Pass` qualifier is elided: its text encoding is empty, so the
/// canonical text of a `Pass` mechanism begins directly with the kind's
/// prefix, and a non-`Pass` mechanism begins with its one qualifier
/// character.
pub proof fn lemma_pass_elided(m: MechView<Seq<char>>)
    ensures
        qualifier_text(Qualifier::Pass) == Seq::<char>::empty(),
        m.qualifier == Qualifier::Pass ==> crate::helpers::seq_starts_with(
            mech_text(m),
            kind_text(m.kind),
        ),
        m.qualifier != Qualifier::Pass ==> mech_text(m).len() > 0 && mech_text(m)[0]
            == qualifier_text(m.qualifier)[0],
{
    reveal_strlit("");
    reveal_strlit("-");
    reveal_strlit("~");
    reveal_strlit("?");
    if m.qualifier == Qualifier::Pass {
        assert(mech_text(m).subrange(0, kind_text(m.kind).len() as int) =~= kind_text(m.kind));
    }
}

/// The `Pass` qualifier is elided from an IP mechanism's text in the
/// same way.
pub proof fn lemma_pass_elided_ip(m: MechView<NetView>)
    ensures
        m.qualifier == Qualifier::Pass ==> crate::helpers::seq_starts_with(
            ip_mech_text(m),
            kind_text(m.kind),
        ),
        m.qualifier != Qualifier::Pass ==> ip_mech_text(m).len() > 0 && ip_mech_text(m)[0]
            == qualifier_text(m.qualifier)[0],
{
    reveal_strlit("");
    reveal_strlit("-");
    reveal_strlit("~");
    reveal_strlit("?");
    if m.qualifier == Qualifier::Pass {
        assert(ip_mech_text(m).subrange(0, kind_text(m.kind).len() as int) =~= kind_text(m.kind));
    }
}

} // verus!
