use vstd::prelude::*;

use crate::helpers::{
    after_last, capture_matches, capture_spec, has_double_space, ip_token_spec, is_qualifier_char,
    last_index_char, last_index_of_char, leading_qualifier, lemma_last_index_of_char,
    return_and_remove_qualifier, seq_contains, seq_ends_with, seq_starts_with, spec_tokens,
    spf_check_whitespace, split_whitespace, str_contains, str_ends_with, str_starts_with,
    string_token_spec, strip_qualifier,
};
use crate::mechanism::{
    ip_mech_text, ip_text_char, kind_text, mech_text, needs_sep, net_wf, qualifier_text, IpNet,
    Kind, MechErrView, MechView, Mechanism, MechanismError, NetView, Qualifier,
};

verus! {

/// Error raised when a record string cannot be parsed, or when a record
/// fails the auxiliary validation checks.
#[derive(Debug)]
pub enum SpfError {
    /// The string does not begin with a recognised version marker.
    InvalidSource,
    /// The string is longer than 255 characters.
    SourceLengthExceeded,
    /// The string holds two or more consecutive whitespace characters.
    WhiteSpaceSyntaxError,
    /// An `ip4:` or `ip6:` token was fatally wrong; carries the cause.
    InvalidIPAddr(MechanismError),
    /// Validation was asked of a record that was never parsed.
    HasNotBeenParsed,
    /// A redirect and an `all` mechanism are both present.
    RedirectWithAllMechanism,
    /// More than ten lookup-bearing mechanisms are present.
    LookupLimitExceeded,
}

/// Mathematical image of an `SpfError`.
pub ghost enum SpfErrView {
    InvalidSource,
    SourceLengthExceeded,
    WhiteSpaceSyntaxError,
    InvalidIPAddr(MechErrView),
    HasNotBeenParsed,
    RedirectWithAllMechanism,
    LookupLimitExceeded,
}

impl View for SpfError {
    type V = SpfErrView;

    closed spec fn view(&self) -> SpfErrView {
        match self {
            SpfError::InvalidSource => SpfErrView::InvalidSource,
            SpfError::SourceLengthExceeded => SpfErrView::SourceLengthExceeded,
            SpfError::WhiteSpaceSyntaxError => SpfErrView::WhiteSpaceSyntaxError,
            SpfError::InvalidIPAddr(e) => SpfErrView::InvalidIPAddr(e@),
            SpfError::HasNotBeenParsed => SpfErrView::HasNotBeenParsed,
            SpfError::RedirectWithAllMechanism => SpfErrView::RedirectWithAllMechanism,
            SpfError::LookupLimitExceeded => SpfErrView::LookupLimitExceeded,
        }
    }
}

/// The view of each mechanism of a list.
pub open spec fn mechs_view<T: View>(v: Seq<Mechanism<T>>) -> Seq<MechView<T::V>> {
    Seq::new(v.len(), |i: int| v[i]@)
}

/// Mathematical image of a whole record: each optional group is either
/// absent or the sequence of its members' views, in order.
pub ghost struct SpfView {
    pub source: Seq<char>,
    pub version: Seq<char>,
    pub from_src: bool,
    pub redirect: Option<MechView<Seq<char>>>,
    pub is_redirected: bool,
    pub a: Option<Seq<MechView<Seq<char>>>>,
    pub mx: Option<Seq<MechView<Seq<char>>>>,
    pub includes: Option<Seq<MechView<Seq<char>>>>,
    pub ip4: Option<Seq<MechView<NetView>>>,
    pub ip6: Option<Seq<MechView<NetView>>>,
    pub ptr: Option<MechView<Seq<char>>>,
    pub exists_list: Option<Seq<MechView<Seq<char>>>>,
    pub all: Option<MechView<Seq<char>>>,
    pub was_parsed: bool,
    pub was_validated: bool,
    pub is_valid: bool,
    pub warnings: Option<Seq<Seq<char>>>,
}

/// A policy record: a version tag, one optional redirect, ptr and `all`,
/// and ordered groups of the repeatable mechanism kinds, plus bookkeeping
/// flags.
#[derive(Debug)]
pub struct Spf {
    source: String,
    version: String,
    from_src: bool,
    redirect: Option<Mechanism<String>>,
    is_redirected: bool,
    a: Option<Vec<Mechanism<String>>>,
    mx: Option<Vec<Mechanism<String>>>,
    includes: Option<Vec<Mechanism<String>>>,
    ip4: Option<Vec<Mechanism<IpNet>>>,
    ip6: Option<Vec<Mechanism<IpNet>>>,
    ptr: Option<Mechanism<String>>,
    exists_list: Option<Vec<Mechanism<String>>>,
    all: Option<Mechanism<String>>,
    was_parsed: bool,
    was_validated: bool,
    is_valid: bool,
    warnings: Option<Vec<String>>,
}

impl View for Spf {
    type V = SpfView;

    closed spec fn view(&self) -> SpfView {
        SpfView {
            source: self.source@,
            version: self.version@,
            from_src: self.from_src,
            redirect: match self.redirect {
                Some(m) => Some(m@),
                None => None,
            },
            is_redirected: self.is_redirected,
            a: match self.a {
                Some(v) => Some(mechs_view(v@)),
                None => None,
            },
            mx: match self.mx {
                Some(v) => Some(mechs_view(v@)),
                None => None,
            },
            includes: match self.includes {
                Some(v) => Some(mechs_view(v@)),
                None => None,
            },
            ip4: match self.ip4 {
                Some(v) => Some(mechs_view(v@)),
                None => None,
            },
            ip6: match self.ip6 {
                Some(v) => Some(mechs_view(v@)),
                None => None,
            },
            ptr: match self.ptr {
                Some(m) => Some(m@),
                None => None,
            },
            exists_list: match self.exists_list {
                Some(v) => Some(mechs_view(v@)),
                None => None,
            },
            all: match self.all {
                Some(m) => Some(m@),
                None => None,
            },
            was_parsed: self.was_parsed,
            was_validated: self.was_validated,
            is_valid: self.is_valid,
            warnings: match self.warnings {
                Some(v) => Some(v.deep_view()),
                None => None,
            },
        }
    }
}

/// The view of a freshly created, fully unset record.
pub open spec fn empty_view() -> SpfView {
    SpfView {
        source: Seq::empty(),
        version: Seq::empty(),
        from_src: false,
        redirect: None,
        is_redirected: false,
        a: None,
        mx: None,
        includes: None,
        ip4: None,
        ip6: None,
        ptr: None,
        exists_list: None,
        all: None,
        was_parsed: false,
        was_validated: false,
        is_valid: false,
        warnings: None,
    }
}

impl Default for Spf {
    /// A record with every field unset.
    fn default() -> (r: Self)
        ensures
            r@ == empty_view(),
    {
        Self {
            source: String::new(),
            version: String::new(),
            from_src: false,
            redirect: None,
            is_redirected: false,
            a: None,
            mx: None,
            includes: None,
            ip4: None,
            ip6: None,
            ptr: None,
            exists_list: None,
            all: None,
            was_parsed: false,
            was_validated: false,
            is_valid: false,
            warnings: None,
        }
    }
}

impl Spf {
    /// A new, empty record.
    pub fn new() -> (r: Self)
        ensures
            r@ == empty_view(),
    {
        Spf::default()
    }

    /// Whether the record counts as valid: the validity flag, but only
    /// once the record was parsed or validated.
    pub fn is_valid(&self) -> (r: bool)
        ensures
            r == ((self@.was_parsed || self@.was_validated) && self@.is_valid),
    {
        if self.was_parsed || self.was_validated {
            return self.is_valid;
        }
        false
    }

    /// Whether parsing left any warnings.
    pub fn has_warnings(&self) -> (r: bool)
        ensures
            r == (self@.warnings is Some),
    {
        !self.warnings.is_none()
    }

    /// Sets the version tag to `v=spf1`.
    pub fn set_v1(&mut self)
        ensures
            final(self)@ == (SpfView { version: "v=spf1"@, ..old(self)@ }),
    {
        self.version = String::from_str("v=spf1");
    }

    /// Sets the version tag to `spf2.0/pra`.
    pub fn set_v2_pra(&mut self)
        ensures
            final(self)@ == (SpfView { version: "spf2.0/pra"@, ..old(self)@ }),
    {
        self.version = String::from_str("spf2.0/pra");
    }

    /// Sets the version tag to `spf2.0/mfrom`.
    pub fn set_v2_mfrom(&mut self)
        ensures
            final(self)@ == (SpfView { version: "spf2.0/mfrom"@, ..old(self)@ }),
    {
        self.version = String::from_str("spf2.0/mfrom");
    }

    /// Sets the version tag to `spf2.0/pra,mfrom`.
    pub fn set_v2_pra_mfrom(&mut self)
        ensures
            final(self)@ == (SpfView { version: "spf2.0/pra,mfrom"@, ..old(self)@ }),
    {
        self.version = String::from_str("spf2.0/pra,mfrom");
    }

    /// Sets the version tag to `spf2.0/mfrom,pra`.
    pub fn set_v2_mfrom_pra(&mut self)
        ensures
            final(self)@ == (SpfView { version: "spf2.0/mfrom,pra"@, ..old(self)@ }),
    {
        self.version = String::from_str("spf2.0/mfrom,pra");
    }

    /// Whether the version tag holds the v1 marker.
    pub fn is_v1(&self) -> (r: bool)
        ensures
            r == seq_contains(self@.version, "v=spf1"@),
    {
        str_contains(self.version.as_str(), "v=spf1")
    }

    /// Whether the version tag begins with the v2 marker.
    pub fn is_v2(&self) -> (r: bool)
        ensures
            r == seq_starts_with(self@.version, "spf2.0"@),
    {
        str_starts_with(self.version.as_str(), "spf2.0")
    }

    /// The version tag.
    pub fn version(&self) -> (r: &String)
        ensures
            r@ == self@.version,
    {
        &self.version
    }

    /// The source text the record was parsed from; empty when the record
    /// was built programmatically.
    pub fn source(&self) -> (r: &String)
        ensures
            r@ == self@.source,
    {
        &self.source
    }

    /// Whether a redirect is present.
    pub fn is_redirect(&self) -> (r: bool)
        ensures
            r == self@.is_redirected,
    {
        self.is_redirected
    }

    /// The redirect mechanism, if present.
    pub fn redirect(&self) -> (r: Option<&Mechanism<String>>)
        ensures
            r is Some <==> self@.redirect is Some,
            r is Some ==> r->0@ == self@.redirect->0,
    {
        self.redirect.as_ref()
    }

    /// The `Include` group, if any member is present.
    pub fn includes(&self) -> (r: Option<&Vec<Mechanism<String>>>)
        ensures
            r is Some <==> self@.includes is Some,
            r is Some ==> mechs_view(r->0@) == self@.includes->0,
    {
        self.includes.as_ref()
    }

    /// The `A` group, if any member is present.
    pub fn a(&self) -> (r: Option<&Vec<Mechanism<String>>>)
        ensures
            r is Some <==> self@.a is Some,
            r is Some ==> mechs_view(r->0@) == self@.a->0,
    {
        self.a.as_ref()
    }

    /// The `MX` group, if any member is present.
    pub fn mx(&self) -> (r: Option<&Vec<Mechanism<String>>>)
        ensures
            r is Some <==> self@.mx is Some,
            r is Some ==> mechs_view(r->0@) == self@.mx->0,
    {
        self.mx.as_ref()
    }

    /// The `IpV4` group, if any member is present.
    pub fn ip4(&self) -> (r: Option<&Vec<Mechanism<IpNet>>>)
        ensures
            r is Some <==> self@.ip4 is Some,
            r is Some ==> mechs_view(r->0@) == self@.ip4->0,
    {
        self.ip4.as_ref()
    }

    /// The `IpV6` group, if any member is present.
    pub fn ip6(&self) -> (r: Option<&Vec<Mechanism<IpNet>>>)
        ensures
            r is Some <==> self@.ip6 is Some,
            r is Some ==> mechs_view(r->0@) == self@.ip6->0,
    {
        self.ip6.as_ref()
    }

    /// The `Exists` group, if any member is present.
    pub fn exists_list(&self) -> (r: Option<&Vec<Mechanism<String>>>)
        ensures
            r is Some <==> self@.exists_list is Some,
            r is Some ==> mechs_view(r->0@) == self@.exists_list->0,
    {
        self.exists_list.as_ref()
    }

    /// The `Ptr` mechanism, if present.
    pub fn ptr(&self) -> (r: Option<&Mechanism<String>>)
        ensures
            r is Some <==> self@.ptr is Some,
            r is Some ==> r->0@ == self@.ptr->0,
    {
        self.ptr.as_ref()
    }

    /// The `All` mechanism, if present.
    pub fn all(&self) -> (r: Option<&Mechanism<String>>)
        ensures
            r is Some <==> self@.all is Some,
            r is Some ==> r->0@ == self@.all->0,
    {
        self.all.as_ref()
    }

    /// The hostnames that failed the optional syntax check, if any.
    pub fn warnings(&self) -> (r: Option<&Vec<String>>)
        ensures
            r is Some <==> self@.warnings is Some,
            r is Some ==> r->0.deep_view() == self@.warnings->0,
    {
        self.warnings.as_ref()
    }
}

} // verus!

verus! {

/// Appends a member to an optional group: an absent group becomes the
/// one-member group.
pub open spec fn opt_push<P>(g: Option<Seq<P>>, m: P) -> Option<Seq<P>> {
    match g {
        Some(s) => Some(s.push(m)),
        None => Some(seq![m]),
    }
}

/// The record transition performed when a text-payload mechanism is
/// appended: a redirect displaces any `all` and wins over later `all`s;
/// `ptr` is replaced; group kinds are appended; IP kinds change nothing.
pub open spec fn spec_append(v: SpfView, m: MechView<Seq<char>>) -> SpfView {
    match m.kind {
        Kind::Redirect => SpfView {
            redirect: Some(m),
            is_redirected: true,
            all: None,
            ..v
        },
        Kind::A => SpfView { a: opt_push(v.a, m), ..v },
        Kind::MX => SpfView { mx: opt_push(v.mx, m), ..v },
        Kind::Include => SpfView { includes: opt_push(v.includes, m), ..v },
        Kind::Exists => SpfView { exists_list: opt_push(v.exists_list, m), ..v },
        Kind::Ptr => SpfView { ptr: Some(m), ..v },
        Kind::All => if v.redirect is None {
            SpfView { all: Some(m), ..v }
        } else {
            v
        },
        _ => v,
    }
}

/// The record transition performed when an IP-network mechanism is
/// appended, by its kind.
pub open spec fn spec_append_ip(v: SpfView, m: MechView<NetView>) -> SpfView {
    if m.kind == Kind::IpV4 {
        SpfView { ip4: opt_push(v.ip4, m), ..v }
    } else {
        SpfView { ip6: opt_push(v.ip6, m), ..v }
    }
}

/// The record transition performed when a kind is cleared.
pub open spec fn spec_clear(v: SpfView, kind: Kind) -> SpfView {
    match kind {
        Kind::Redirect => SpfView { redirect: None, is_redirected: false, ..v },
        Kind::A => SpfView { a: None, ..v },
        Kind::MX => SpfView { mx: None, ..v },
        Kind::Include => SpfView { includes: None, ..v },
        Kind::IpV4 => SpfView { ip4: None, ..v },
        Kind::IpV6 => SpfView { ip6: None, ..v },
        Kind::Exists => SpfView { exists_list: None, ..v },
        Kind::Ptr => SpfView { ptr: None, ..v },
        Kind::All => SpfView { all: None, ..v },
    }
}

impl Spf {
    /// Clears every mechanism of the given kind.
    #[verifier::rlimit(100)]
    #[verifier::spinoff_prover]
    pub fn clear_mechanism(&mut self, kind: Kind)
        ensures
            final(self)@ == spec_clear(old(self)@, kind),
    {
        match kind {
            Kind::Redirect => {
                self.redirect = None;
                self.is_redirected = false;
            },
            Kind::A => self.a = None,
            Kind::MX => self.mx = None,
            Kind::Include => self.includes = None,
            Kind::IpV4 => self.ip4 = None,
            Kind::IpV6 => self.ip6 = None,
            Kind::Exists => self.exists_list = None,
            Kind::Ptr => self.ptr = None,
            Kind::All => self.all = None,
        }
    }

    fn append_mechanism_of_redirect(&mut self, mechanism: Mechanism<String>)
        ensures
            final(self)@ == (SpfView {
                redirect: Some(mechanism@),
                is_redirected: true,
                all: None,
                ..old(self)@
            }),
    {
        self.redirect = Some(mechanism);
        self.is_redirected = true;
        if self.all.is_some() {
            self.all = None;
        }
    }

    fn append_mechanism_of_a(&mut self, mechanism: Mechanism<String>)
        ensures
            final(self)@ == (SpfView { a: opt_push(old(self)@.a, mechanism@), ..old(self)@ }),
    {
        let ghost m = mechanism@;
        match self.a.take() {
            Some(mut v) => {
                let ghost vg = v@;
                v.push(mechanism);
                proof {
                    assert(mechs_view(v@) =~= mechs_view(vg).push(m));
                }
                self.a = Some(v);
            },
            None => {
                let v = vec![mechanism];
                proof {
                    assert(mechs_view(v@) =~= seq![m]);
                }
                self.a = Some(v);
            },
        }
    }

    fn append_mechanism_of_mx(&mut self, mechanism: Mechanism<String>)
        ensures
            final(self)@ == (SpfView { mx: opt_push(old(self)@.mx, mechanism@), ..old(self)@ }),
    {
        let ghost m = mechanism@;
        match self.mx.take() {
            Some(mut v) => {
                let ghost vg = v@;
                v.push(mechanism);
                proof {
                    assert(mechs_view(v@) =~= mechs_view(vg).push(m));
                }
                self.mx = Some(v);
            },
            None => {
                let v = vec![mechanism];
                proof {
                    assert(mechs_view(v@) =~= seq![m]);
                }
                self.mx = Some(v);
            },
        }
    }

    fn append_mechanism_of_include(&mut self, mechanism: Mechanism<String>)
        ensures
            final(self)@ == (SpfView {
                includes: opt_push(old(self)@.includes, mechanism@),
                ..old(self)@
            }),
    {
        let ghost m = mechanism@;
        match self.includes.take() {
            Some(mut v) => {
                let ghost vg = v@;
                v.push(mechanism);
                proof {
                    assert(mechs_view(v@) =~= mechs_view(vg).push(m));
                }
                self.includes = Some(v);
            },
            None => {
                let v = vec![mechanism];
                proof {
                    assert(mechs_view(v@) =~= seq![m]);
                }
                self.includes = Some(v);
            },
        }
    }

    fn append_mechanism_of_exists(&mut self, mechanism: Mechanism<String>)
        ensures
            final(self)@ == (SpfView {
                exists_list: opt_push(old(self)@.exists_list, mechanism@),
                ..old(self)@
            }),
    {
        let ghost m = mechanism@;
        match self.exists_list.take() {
            Some(mut v) => {
                let ghost vg = v@;
                v.push(mechanism);
                proof {
                    assert(mechs_view(v@) =~= mechs_view(vg).push(m));
                }
                self.exists_list = Some(v);
            },
            None => {
                let v = vec![mechanism];
                proof {
                    assert(mechs_view(v@) =~= seq![m]);
                }
                self.exists_list = Some(v);
            },
        }
    }

    fn append_mechanism_of_ip4(&mut self, mechanism: Mechanism<IpNet>)
        ensures
            final(self)@ == (SpfView { ip4: opt_push(old(self)@.ip4, mechanism@), ..old(self)@ }),
    {
        let ghost m = mechanism@;
        match self.ip4.take() {
            Some(mut v) => {
                let ghost vg = v@;
                v.push(mechanism);
                proof {
                    assert(mechs_view(v@) =~= mechs_view(vg).push(m));
                }
                self.ip4 = Some(v);
            },
            None => {
                let v = vec![mechanism];
                proof {
                    assert(mechs_view(v@) =~= seq![m]);
                }
                self.ip4 = Some(v);
            },
        }
    }

    fn append_mechanism_of_ip6(&mut self, mechanism: Mechanism<IpNet>)
        ensures
            final(self)@ == (SpfView { ip6: opt_push(old(self)@.ip6, mechanism@), ..old(self)@ }),
    {
        let ghost m = mechanism@;
        match self.ip6.take() {
            Some(mut v) => {
                let ghost vg = v@;
                v.push(mechanism);
                proof {
                    assert(mechs_view(v@) =~= mechs_view(vg).push(m));
                }
                self.ip6 = Some(v);
            },
            None => {
                let v = vec![mechanism];
                proof {
                    assert(mechs_view(v@) =~= seq![m]);
                }
                self.ip6 = Some(v);
            },
        }
    }

    fn append_mechanism_of_ptr(&mut self, mechanism: Mechanism<String>)
        ensures
            final(self)@ == (SpfView { ptr: Some(mechanism@), ..old(self)@ }),
    {
        self.ptr = Some(mechanism);
    }

    fn append_mechanism_of_all(&mut self, mechanism: Mechanism<String>)
        ensures
            final(self)@ == (if old(self)@.redirect is None {
                SpfView { all: Some(mechanism@), ..old(self)@ }
            } else {
                old(self)@
            }),
    {
        if self.redirect.is_none() {
            self.all = Some(mechanism);
        }
    }

    /// Appends a text-payload mechanism, dispatched on its kind.  A
    /// redirect displaces any `all`; an `all` appended while a redirect is
    /// present changes nothing; IP kinds change nothing here.
    pub fn append_mechanism(&mut self, mechanism: Mechanism<String>)
        ensures
            final(self)@ == spec_append(old(self)@, mechanism@),
    {
        match *mechanism.kind() {
            Kind::Redirect => self.append_mechanism_of_redirect(mechanism),
            Kind::A => self.append_mechanism_of_a(mechanism),
            Kind::MX => self.append_mechanism_of_mx(mechanism),
            Kind::Include => self.append_mechanism_of_include(mechanism),
            Kind::Exists => self.append_mechanism_of_exists(mechanism),
            Kind::Ptr => self.append_mechanism_of_ptr(mechanism),
            Kind::All => self.append_mechanism_of_all(mechanism),
            _ => {},
        }
    }

    /// Appends an IP-network mechanism to the group its kind names.
    pub fn append_ip_mechanism(&mut self, mechanism: Mechanism<IpNet>)
        requires
            mechanism@.kind == Kind::IpV4 || mechanism@.kind == Kind::IpV6,
        ensures
            final(self)@ == spec_append_ip(old(self)@, mechanism@),
    {
        match *mechanism.kind() {
            Kind::IpV4 => self.append_mechanism_of_ip4(mechanism),
            Kind::IpV6 => self.append_mechanism_of_ip6(mechanism),
            _ => {},
        }
    }
}

} // verus!

verus! {

/// Rendering of a group: one leading space before each member's text.
pub open spec fn mechs_group_text(g: Seq<MechView<Seq<char>>>) -> Seq<char>
    decreases g.len(),
{
    if g.len() == 0 {
        Seq::empty()
    } else {
        " "@ + mech_text(g[0]) + mechs_group_text(g.drop_first())
    }
}

/// Rendering of an IP group: one leading space before each member's text.
pub open spec fn ip_group_text(g: Seq<MechView<NetView>>) -> Seq<char>
    decreases g.len(),
{
    if g.len() == 0 {
        Seq::empty()
    } else {
        " "@ + ip_mech_text(g[0]) + ip_group_text(g.drop_first())
    }
}

/// Rendering of an optional group; absent groups render as nothing.
pub open spec fn opt_group_text(g: Option<Seq<MechView<Seq<char>>>>) -> Seq<char> {
    match g {
        Some(s) => mechs_group_text(s),
        None => Seq::empty(),
    }
}

/// Rendering of an optional IP group; absent groups render as nothing.
pub open spec fn opt_ip_group_text(g: Option<Seq<MechView<NetView>>>) -> Seq<char> {
    match g {
        Some(s) => ip_group_text(s),
        None => Seq::empty(),
    }
}

/// Rendering of an optional single mechanism, with its leading space.
pub open spec fn opt_one_text(m: Option<MechView<Seq<char>>>) -> Seq<char> {
    match m {
        Some(p) => " "@ + mech_text(p),
        None => Seq::empty(),
    }
}

/// The canonical text of a record: version first, then the groups in the
/// fixed order `a`, `mx`, `include`, `ip4`, `ip6`, `exists`, then `ptr`,
/// then the redirect when one is present, else the `all` mechanism.  The
/// order mechanisms appeared in a source string plays no part.
pub open spec fn record_text(v: SpfView) -> Seq<char> {
    v.version + opt_group_text(v.a) + opt_group_text(v.mx) + opt_group_text(v.includes)
        + opt_ip_group_text(v.ip4) + opt_ip_group_text(v.ip6) + opt_group_text(v.exists_list)
        + opt_one_text(v.ptr) + (if v.is_redirected {
        opt_one_text(v.redirect)
    } else {
        Seq::empty()
    }) + (if !v.is_redirected {
        opt_one_text(v.all)
    } else {
        Seq::empty()
    })
}

/// Renders one group of text-payload mechanisms.
fn build_group(list: &Vec<Mechanism<String>>) -> (r: String)
    ensures
        r@ == mechs_group_text(mechs_view(list@)),
{
    let ghost g = mechs_view(list@);
    let mut out = String::new();
    let mut i: usize = 0;
    proof {
        assert(g.skip(0) =~= g);
        assert(out@ + mechs_group_text(g) =~= mechs_group_text(g));
    }
    while i < list.len()
        invariant
            0 <= i <= list.len(),
            g == mechs_view(list@),
            g.len() == list.len(),
            out@ + mechs_group_text(g.skip(i as int)) == mechs_group_text(g),
        decreases list.len() - i,
    {
        let ghost pre = out@;
        let m = &list[i];
        let ms = m.string();
        out.append(" ");
        out.append(ms.as_str());
        proof {
            assert(g.skip(i as int).len() > 0);
            assert(g.skip(i as int)[0] == g[i as int]);
            assert(g.skip(i as int).drop_first() =~= g.skip(i + 1));
            assert(mechs_group_text(g.skip(i as int)) == " "@ + mech_text(g[i as int])
                + mechs_group_text(g.skip(i + 1)));
            assert(out@ =~= pre + " "@ + mech_text(g[i as int]));
            assert(out@ + mechs_group_text(g.skip(i + 1)) =~= pre + mechs_group_text(
                g.skip(i as int),
            ));
        }
        i += 1;
    }
    proof {
        assert(g.skip(i as int) =~= Seq::<MechView<Seq<char>>>::empty());
        assert(out@ + mechs_group_text(g.skip(i as int)) =~= out@);
    }
    out
}

/// Renders one group of IP-network mechanisms.
fn build_ip_group(list: &Vec<Mechanism<IpNet>>) -> (r: String)
    ensures
        r@ == ip_group_text(mechs_view(list@)),
{
    let ghost g = mechs_view(list@);
    let mut out = String::new();
    let mut i: usize = 0;
    proof {
        assert(g.skip(0) =~= g);
        assert(out@ + ip_group_text(g) =~= ip_group_text(g));
    }
    while i < list.len()
        invariant
            0 <= i <= list.len(),
            g == mechs_view(list@),
            g.len() == list.len(),
            out@ + ip_group_text(g.skip(i as int)) == ip_group_text(g),
        decreases list.len() - i,
    {
        let ghost pre = out@;
        let m = &list[i];
        let ms = m.string();
        out.append(" ");
        out.append(ms.as_str());
        proof {
            assert(g.skip(i as int).len() > 0);
            assert(g.skip(i as int)[0] == g[i as int]);
            assert(g.skip(i as int).drop_first() =~= g.skip(i + 1));
            assert(ip_group_text(g.skip(i as int)) == " "@ + ip_mech_text(g[i as int])
                + ip_group_text(g.skip(i + 1)));
            assert(out@ =~= pre + " "@ + ip_mech_text(g[i as int]));
            assert(out@ + ip_group_text(g.skip(i + 1)) =~= pre + ip_group_text(g.skip(i as int)));
        }
        i += 1;
    }
    proof {
        assert(g.skip(i as int) =~= Seq::<MechView<NetView>>::empty());
        assert(out@ + ip_group_text(g.skip(i as int)) =~= out@);
    }
    out
}

/// The number of lookup-bearing mechanisms: every `a`, `mx`, `include`
/// and `exists` member, plus one for a redirect.
pub open spec fn lookup_count(v: SpfView) -> int {
    group_len(v.a) + group_len(v.mx) + group_len(v.includes) + group_len(v.exists_list) + (
    if v.redirect is Some {
        1int
    } else {
        0int
    })
}

/// The number of members of an optional group.
pub open spec fn group_len<P>(g: Option<Seq<P>>) -> int {
    match g {
        Some(s) => s.len() as int,
        None => 0,
    }
}

/// The first validation rule a record breaks, if any: an over-long source
/// or an unparsed record (only for records that came from text), a
/// redirect standing beside an `all`, or more than ten lookups.
pub open spec fn spec_validate_err(v: SpfView) -> Option<SpfErrView> {
    if v.from_src && v.source.len() > 255 {
        Some(SpfErrView::SourceLengthExceeded)
    } else if v.from_src && !v.was_parsed {
        Some(SpfErrView::HasNotBeenParsed)
    } else if v.redirect is Some && v.all is Some {
        Some(SpfErrView::RedirectWithAllMechanism)
    } else if lookup_count(v) > 10 {
        Some(SpfErrView::LookupLimitExceeded)
    } else {
        None
    }
}

impl Spf {
    /// The canonical text of the record.
    #[verifier::rlimit(100)]
    #[verifier::spinoff_prover]
    pub fn to_string(&self) -> (r: String)
        ensures
            r@ == record_text(self@),
    {
        let mut out = String::new();
        out.append(self.version.as_str());
        let ghost mut expect: Seq<char> = self@.version;
        proof {
            assert(out@ =~= expect);
        }
        if let Some(v) = &self.a {
            out.append(build_group(v).as_str());
        }
        proof {
            expect = expect + opt_group_text(self@.a);
            assert(out@ =~= expect);
        }
        if let Some(v) = &self.mx {
            out.append(build_group(v).as_str());
        }
        proof {
            expect = expect + opt_group_text(self@.mx);
            assert(out@ =~= expect);
        }
        if let Some(v) = &self.includes {
            out.append(build_group(v).as_str());
        }
        proof {
            expect = expect + opt_group_text(self@.includes);
            assert(out@ =~= expect);
        }
        if let Some(v) = &self.ip4 {
            out.append(build_ip_group(v).as_str());
        }
        proof {
            expect = expect + opt_ip_group_text(self@.ip4);
            assert(out@ =~= expect);
        }
        if let Some(v) = &self.ip6 {
            out.append(build_ip_group(v).as_str());
        }
        proof {
            expect = expect + opt_ip_group_text(self@.ip6);
            assert(out@ =~= expect);
        }
        if let Some(v) = &self.exists_list {
            out.append(build_group(v).as_str());
        }
        proof {
            expect = expect + opt_group_text(self@.exists_list);
            assert(out@ =~= expect);
        }
        if let Some(p) = &self.ptr {
            out.append(" ");
            out.append(p.string().as_str());
        }
        proof {
            expect = expect + opt_one_text(self@.ptr);
            assert(out@ =~= expect);
        }
        if self.is_redirected {
            if let Some(rm) = &self.redirect {
                out.append(" ");
                out.append(rm.string().as_str());
            }
        }
        proof {
            expect = expect + (if self@.is_redirected {
                opt_one_text(self@.redirect)
            } else {
                Seq::empty()
            });
            assert(out@ =~= expect);
        }
        if !self.is_redirected {
            if let Some(am) = &self.all {
                out.append(" ");
                out.append(am.string().as_str());
            }
        }
        proof {
            expect = expect + (if !self@.is_redirected {
                opt_one_text(self@.all)
            } else {
                Seq::empty()
            });
            assert(out@ =~= expect);
            assert(expect =~= record_text(self@));
        }
        out
    }

    /// Checks the auxiliary validation rules and, when all hold, marks the
    /// record valid.  Returns the first rule broken otherwise, leaving the
    /// record unchanged.
    #[verifier::rlimit(100)]
    #[verifier::spinoff_prover]
    pub fn try_validate(&mut self) -> (r: Result<(), SpfError>)
        ensures
            spec_validate_err(old(self)@) is Some ==> r is Err && r->Err_0@ == spec_validate_err(
                old(self)@,
            )->0 && final(self)@ == old(self)@,
            spec_validate_err(old(self)@) is None ==> r is Ok && final(self)@ == (SpfView {
                is_valid: true,
                ..old(self)@
            }),
    {
        if self.from_src {
            if self.source.as_str().unicode_len() > 255 {
                return Err(SpfError::SourceLengthExceeded);
            } else if !self.was_parsed {
                return Err(SpfError::HasNotBeenParsed);
            }
        }
        if self.redirect.is_some() && self.all.is_some() {
            return Err(SpfError::RedirectWithAllMechanism);
        }
        let mut count: u128 = 0;
        if let Some(v) = &self.a {
            count = count + v.len() as u128;
        }
        if let Some(v) = &self.mx {
            count = count + v.len() as u128;
        }
        if let Some(v) = &self.includes {
            count = count + v.len() as u128;
        }
        if let Some(v) = &self.exists_list {
            count = count + v.len() as u128;
        }
        if self.redirect.is_some() {
            count = count + 1;
        }
        if count > 10 {
            return Err(SpfError::LookupLimitExceeded);
        }
        self.is_valid = true;
        Ok(())
    }
}

} // verus!

verus! {

/// The mechanism built from an `exists:` token: qualifier stripped,
/// payload after the rightmost `:`.
pub open spec fn exists_mech(tok: Seq<char>) -> MechView<Seq<char>> {
    MechView {
        kind: Kind::Exists,
        qualifier: leading_qualifier(tok),
        payload: Some(after_last(tok, ':')),
    }
}

/// The mechanism built from a token ending in `all`: qualifier stripped,
/// no payload.
pub open spec fn all_mech(tok: Seq<char>) -> MechView<Seq<char>> {
    MechView {
        kind: Kind::All,
        qualifier: leading_qualifier(tok),
        payload: None::<Seq<char>>,
    }
}

/// One classification step of the parse: the token is tried against each
/// shape in fixed priority order — version marker, `redirect=`,
/// `include:`, `exists:`, `ip4:`/`ip6:`, trailing `all`, then the `a`,
/// `mx` and `ptr` shapes — and the first match decides; a token matching
/// none is dropped.  Only a fatally wrong IP token stops the parse.
pub open spec fn spec_step(v: SpfView, tok: Seq<char>) -> Result<SpfView, SpfErrView> {
    if seq_contains(tok, "v=spf1"@) || seq_starts_with(tok, "spf2.0"@) {
        Ok(SpfView { version: tok, ..v })
    } else if seq_contains(tok, "redirect="@) {
        Ok(
            SpfView {
                redirect: Some(string_token_spec(tok)->Ok_0),
                is_redirected: true,
                ..v
            },
        )
    } else if seq_contains(tok, "include:"@) {
        Ok(SpfView { includes: opt_push(v.includes, string_token_spec(tok)->Ok_0), ..v })
    } else if seq_contains(tok, "exists:"@) {
        Ok(SpfView { exists_list: opt_push(v.exists_list, exists_mech(tok)), ..v })
    } else if seq_contains(tok, "ip4:"@) || seq_contains(tok, "ip6:"@) {
        match ip_token_spec(tok) {
            Ok(m) => if m.kind == Kind::IpV4 {
                Ok(SpfView { ip4: opt_push(v.ip4, m), ..v })
            } else {
                Ok(SpfView { ip6: opt_push(v.ip6, m), ..v })
            },
            Err(e) => if e is NotValidMechanismFormat {
                Ok(v)
            } else {
                Err(SpfErrView::InvalidIPAddr(e))
            },
        }
    } else if seq_ends_with(tok, "all"@) {
        Ok(SpfView { all: Some(all_mech(tok)), ..v })
    } else if capture_spec(tok, Kind::A) is Some {
        Ok(SpfView { a: opt_push(v.a, capture_spec(tok, Kind::A)->0), ..v })
    } else if capture_spec(tok, Kind::MX) is Some {
        Ok(SpfView { mx: opt_push(v.mx, capture_spec(tok, Kind::MX)->0), ..v })
    } else if capture_spec(tok, Kind::Ptr) is Some {
        Ok(SpfView { ptr: Some(capture_spec(tok, Kind::Ptr)->0), ..v })
    } else {
        Ok(v)
    }
}

/// The classification fold over a token list, stopping at the first
/// fatal token.
pub open spec fn spec_fold(v: SpfView, toks: Seq<Seq<char>>) -> Result<SpfView, SpfErrView>
    decreases toks.len(),
{
    if toks.len() == 0 {
        Ok(v)
    } else {
        match spec_step(v, toks[0]) {
            Ok(v2) => spec_fold(v2, toks.drop_first()),
            Err(e) => Err(e),
        }
    }
}

/// The whole parse: the three structural checks in order — version
/// marker at the head, length at most 255, no doubled whitespace — then
/// the classification fold over the whitespace-separated tokens, and on
/// success the bookkeeping flags and the retained source text.
pub open spec fn spec_parse(s: Seq<char>) -> Result<SpfView, SpfErrView> {
    if !(seq_starts_with(s, "v=spf1"@) || seq_starts_with(s, "spf2.0"@)) {
        Err(SpfErrView::InvalidSource)
    } else if s.len() > 255 {
        Err(SpfErrView::SourceLengthExceeded)
    } else if has_double_space(s) {
        Err(SpfErrView::WhiteSpaceSyntaxError)
    } else {
        match spec_fold(empty_view(), spec_tokens(s)) {
            Ok(v) => Ok(SpfView { was_parsed: true, is_valid: true, source: s, ..v }),
            Err(e) => Err(e),
        }
    }
}

/// Every network held by an IP group is in good standing: canonical, and
/// written in the canonical character set.
pub open spec fn ip_group_canonical(g: Option<Seq<MechView<NetView>>>) -> bool {
    match g {
        Some(s) => forall|i: int|
            0 <= i < s.len() ==> (#[trigger] s[i].payload) is Some && net_wf(s[i].payload->0),
        None => true,
    }
}

/// Every network held by the record is in good standing.
pub open spec fn nets_canonical(v: SpfView) -> bool {
    ip_group_canonical(v.ip4) && ip_group_canonical(v.ip6)
}

impl Spf {
    /// Applies one token to the record under construction.
    #[verifier::rlimit(100)]
    #[verifier::spinoff_prover]
    fn apply_token(&mut self, tok: &str) -> (r: Result<(), SpfError>)
        ensures
            spec_step(old(self)@, tok@) is Ok ==> r is Ok && final(self)@ == spec_step(
                old(self)@,
                tok@,
            )->Ok_0,
            spec_step(old(self)@, tok@) is Err ==> r is Err && r->Err_0@ == spec_step(
                old(self)@,
                tok@,
            )->Err_0 && final(self)@ == old(self)@,
            nets_canonical(old(self)@) && spec_step(old(self)@, tok@) is Ok ==> nets_canonical(
                final(self)@,
            ),
    {
        let n = tok.unicode_len();
        if str_contains(tok, "v=spf1") || str_starts_with(tok, "spf2.0") {
            self.version = tok.to_owned();
            Ok(())
        } else if str_contains(tok, "redirect=") {
            match Mechanism::<String>::from_str(tok) {
                Ok(m) => {
                    self.redirect = Some(m);
                    self.is_redirected = true;
                    Ok(())
                },
                Err(e) => {
                    proof {
                        assert(false);
                    }
                    Err(SpfError::InvalidIPAddr(e))
                },
            }
        } else if str_contains(tok, "include:") {
            match Mechanism::<String>::from_str(tok) {
                Ok(m) => {
                    self.append_mechanism_of_include(m);
                    Ok(())
                },
                Err(e) => {
                    proof {
                        assert(false);
                    }
                    Err(SpfError::InvalidIPAddr(e))
                },
            }
        } else if str_contains(tok, "exists:") {
            let q = return_and_remove_qualifier(tok).0;
            match last_index_char(tok, ':') {
                Some(i) => {
                    proof {
                        lemma_last_index_of_char(tok@, ':');
                    }
                    let payload = tok.substring_char(i + 1, n);
                    self.append_mechanism_of_exists(
                        Mechanism::new(Kind::Exists, q, Some(payload.to_owned())),
                    );
                    Ok(())
                },
                None => {
                    proof {
                        reveal_strlit("exists:");
                        lemma_last_index_of_char(tok@, ':');
                        let w = choose|i: int|
                            0 <= i && i + "exists:"@.len() <= tok@.len()
                                && #[trigger] tok@.subrange(i, i + "exists:"@.len())
                                == "exists:"@;
                        assert(tok@.subrange(w, w + 7)[6] == tok@[w + 6]);
                        assert(false);
                    }
                    Ok(())
                },
            }
        } else if str_contains(tok, "ip4:") || str_contains(tok, "ip6:") {
            match Mechanism::<IpNet>::from_str(tok) {
                Ok(m) => {
                    if m.kind().is_ip_v4() {
                        self.append_mechanism_of_ip4(m);
                    } else {
                        self.append_mechanism_of_ip6(m);
                    }
                    Ok(())
                },
                Err(e) => {
                    if e.is_invalid_format() {
                        Ok(())
                    } else {
                        Err(SpfError::InvalidIPAddr(e))
                    }
                },
            }
        } else if str_ends_with(tok, "all") {
            let q = return_and_remove_qualifier(tok).0;
            self.all = Some(Mechanism::new_all(q));
            Ok(())
        } else if let Some(m) = capture_matches(tok, Kind::A) {
            self.append_mechanism_of_a(m);
            Ok(())
        } else if let Some(m) = capture_matches(tok, Kind::MX) {
            self.append_mechanism_of_mx(m);
            Ok(())
        } else if let Some(m) = capture_matches(tok, Kind::Ptr) {
            self.append_mechanism_of_ptr(m);
            Ok(())
        } else {
            Ok(())
        }
    }

    /// Parses a record string.  The three structural checks are made
    /// first, in order; then each whitespace-separated token is classified
    /// in fixed priority order and folded into a fresh record; only a
    /// fatally wrong `ip4:`/`ip6:` token aborts the fold.  On success the
    /// record carries the parsed flag, the valid flag and the source text.
    #[verifier::rlimit(100)]
    #[verifier::spinoff_prover]
    pub fn from_str(s: &str) -> (r: Result<Spf, SpfError>)
        ensures
            r is Ok <==> spec_parse(s@) is Ok,
            r is Ok ==> r->Ok_0@ == spec_parse(s@)->Ok_0 && nets_canonical(r->Ok_0@),
            r is Err ==> r->Err_0@ == spec_parse(s@)->Err_0,
    {
        if !(str_starts_with(s, "v=spf1") || str_starts_with(s, "spf2.0")) {
            return Err(SpfError::InvalidSource);
        }
        let n = s.unicode_len();
        if n > 255 {
            return Err(SpfError::SourceLengthExceeded);
        }
        if spf_check_whitespace(s) {
            return Err(SpfError::WhiteSpaceSyntaxError);
        }
        let toks = split_whitespace(s);
        let ghost tv = toks.deep_view();
        let mut spf = Spf::new();
        let mut i: usize = 0;
        proof {
            assert(tv.skip(0) =~= tv);
        }
        while i < toks.len()
            invariant
                0 <= i <= toks.len(),
                tv == toks.deep_view(),
                tv.len() == toks.len(),
                tv == spec_tokens(s@),
                seq_starts_with(s@, "v=spf1"@) || seq_starts_with(s@, "spf2.0"@),
                s@.len() <= 255,
                !has_double_space(s@),
                spec_fold(empty_view(), tv) == spec_fold(spf@, tv.skip(i as int)),
                nets_canonical(spf@),
            decreases toks.len() - i,
        {
            let tok = &toks[i];
            proof {
                assert(tok@ == tv[i as int]);
                assert(tv.skip(i as int).len() > 0);
                assert(tv.skip(i as int)[0] == tv[i as int]);
                assert(tv.skip(i as int).drop_first() =~= tv.skip(i + 1));
            }
            match spf.apply_token(tok.as_str()) {
                Ok(()) => {},
                Err(e) => {
                    return Err(e);
                },
            }
            i += 1;
        }
        proof {
            assert(tv.skip(i as int) =~= Seq::<Seq<char>>::empty());
        }
        spf.was_parsed = true;
        spf.is_valid = true;
        spf.source = s.to_owned();
        Ok(spf)
    }
}

} // verus!

verus! {

/// A token with no leading qualifier character always yields `Pass`:
/// this holds of the qualifier read by every classification shape.
pub proof fn lemma_qualifier_default(tok: Seq<char>, kind: Kind)
    ensures
        tok.len() == 0 || !is_qualifier_char(tok[0]) ==> {
            &&& leading_qualifier(tok) == Qualifier::Pass
            &&& capture_spec(tok, kind) is Some ==> capture_spec(tok, kind)->0.qualifier
                == Qualifier::Pass
            &&& ip_token_spec(tok) is Ok ==> ip_token_spec(tok)->Ok_0.qualifier == Qualifier::Pass
            &&& exists_mech(tok).qualifier == Qualifier::Pass
            &&& all_mech(tok).qualifier == Qualifier::Pass
        },
{
}

/// Redirect and `all` exclude each other under appending, in both
/// orders: appending a redirect clears any `all` already present and
/// makes later `all`s no-ops, so the redirect always wins.
pub proof fn lemma_redirect_all_exclusion(
    v: SpfView,
    rm: MechView<Seq<char>>,
    am: MechView<Seq<char>>,
)
    ensures
        rm.kind == Kind::Redirect && am.kind == Kind::All ==> spec_append(
            spec_append(v, rm),
            am,
        ).all is None,
        rm.kind == Kind::Redirect && am.kind == Kind::All ==> {
            let w = spec_append(spec_append(v, am), rm);
            &&& w.redirect == Some(rm)
            &&& w.is_redirected
            &&& w.all is None
        },
{
}

/// Whether a token is read as a version marker.
pub open spec fn is_version_token(tok: Seq<char>) -> bool {
    seq_contains(tok, "v=spf1"@) || seq_starts_with(tok, "spf2.0"@)
}

/// The version tag after folding a token list: the last version-shaped
/// token wins; without one the tag stays as it was.
pub open spec fn fold_version(v0: Seq<char>, toks: Seq<Seq<char>>) -> Seq<char>
    decreases toks.len(),
{
    if toks.len() == 0 {
        v0
    } else {
        fold_version(
            if is_version_token(toks[0]) {
                toks[0]
            } else {
                v0
            },
            toks.drop_first(),
        )
    }
}

/// Whether a token aborts the parse: only an `ip4:`/`ip6:` token whose
/// network literal is unreadable or of the wrong family, provided no
/// higher-priority shape claims the token first.  This does not depend
/// on the record built so far.
pub open spec fn token_fatal(tok: Seq<char>) -> bool {
    &&& !is_version_token(tok)
    &&& !seq_contains(tok, "redirect="@)
    &&& !seq_contains(tok, "include:"@)
    &&& !seq_contains(tok, "exists:"@)
    &&& (seq_contains(tok, "ip4:"@) || seq_contains(tok, "ip6:"@))
    &&& ip_token_spec(tok) is Err
    &&& !(ip_token_spec(tok)->Err_0 is NotValidMechanismFormat)
}

/// A classification step errs exactly on a fatal token, whatever record
/// it starts from, and carries the version tag along as `fold_version`
/// says.
pub proof fn lemma_step_shape(v: SpfView, tok: Seq<char>)
    ensures
        spec_step(v, tok) is Err <==> token_fatal(tok),
        spec_step(v, tok) is Ok ==> spec_step(v, tok)->Ok_0.version == (if is_version_token(tok) {
            tok
        } else {
            v.version
        }),
{
}

proof fn lemma_fold_ok(v: SpfView, toks: Seq<Seq<char>>)
    ensures
        (forall|i: int| 0 <= i < toks.len() ==> !token_fatal(#[trigger] toks[i])) ==> spec_fold(
            v,
            toks,
        ) is Ok && spec_fold(v, toks)->Ok_0.version == fold_version(v.version, toks),
    decreases toks.len(),
{
    if toks.len() > 0 {
        if forall|i: int| 0 <= i < toks.len() ==> !token_fatal(#[trigger] toks[i]) {
            assert(!token_fatal(toks[0]));
            lemma_step_shape(v, toks[0]);
            let v2 = spec_step(v, toks[0])->Ok_0;
            lemma_fold_ok(v2, toks.drop_first());
            assert forall|i: int| 0 <= i < toks.drop_first().len() implies !token_fatal(
                #[trigger] toks.drop_first()[i],
            ) by {
                assert(toks.drop_first()[i] == toks[i + 1]);
            }
        }
    }
}

/// Every structurally valid input parses: a string that begins with a
/// recognised version marker, holds at most 255 characters, has no two
/// consecutive whitespace characters and no fatal IP token is accepted,
/// and the parsed version tag is the last version-shaped token of the
/// line.
pub proof fn lemma_valid_input_parses(s: Seq<char>)
    ensures
        ({
            &&& seq_starts_with(s, "v=spf1"@) || seq_starts_with(s, "spf2.0"@)
            &&& s.len() <= 255
            &&& !has_double_space(s)
            &&& forall|i: int|
                0 <= i < spec_tokens(s).len() ==> !token_fatal(#[trigger] spec_tokens(s)[i])
        }) ==> spec_parse(s) is Ok && spec_parse(s)->Ok_0.version == fold_version(
            Seq::empty(),
            spec_tokens(s),
        ) && spec_tokens(s).len() > 0 && is_version_token(spec_tokens(s)[0]),
{
    lemma_fold_ok(empty_view(), spec_tokens(s));
    if seq_starts_with(s, "v=spf1"@) || seq_starts_with(s, "spf2.0"@) {
        lemma_first_token_version(s);
    }
}

} // verus!

verus! {

use crate::helpers::{
    lemma_after_last_concat, lemma_charset_excludes, lemma_contains_concat_two_chars,
    lemma_contains_subrange, lemma_no_double_space_append, lemma_token_props,
    lemma_tokens_single, lemma_tokens_split_at_space, space_free,
};

/// A token with its redundant leading `+` removed, if it has one: the
/// `+` qualifier is elided when the token is rendered back.
pub open spec fn strip_plus(tok: Seq<char>) -> Seq<char> {
    if tok.len() > 0 && tok[0] == '+' {
        tok.subrange(1, tok.len() as int)
    } else {
        tok
    }
}

/// A captured mechanism renders back to the token it was read from, less
/// a redundant leading `+`; the rendered text strips to the same rest and
/// carries the same qualifier, so every capture shape reads the rendered
/// text exactly as it read the token.
pub proof fn lemma_capture_text(tok: Seq<char>, kind: Kind)
    requires
        capture_spec(tok, kind) is Some,
        kind == Kind::A || kind == Kind::MX || kind == Kind::Ptr,
    ensures
        ({
            let m = capture_spec(tok, kind)->0;
            let t = mech_text(m);
            &&& t == strip_plus(tok)
            &&& leading_qualifier(t) == leading_qualifier(tok)
            &&& strip_qualifier(t) == strip_qualifier(tok)
            &&& forall|k2: Kind| #[trigger] capture_spec(t, k2) == capture_spec(tok, k2)
        }),
{
    reveal_strlit("a");
    reveal_strlit("mx");
    reveal_strlit("ptr");
    reveal_strlit("-");
    reveal_strlit("~");
    reveal_strlit("?");
    reveal_strlit("");
    let m = capture_spec(tok, kind)->0;
    let t = mech_text(m);
    let q = leading_qualifier(tok);
    let rest = strip_qualifier(tok);
    let kw = kind_text(kind);
    assert(kw.len() > 0);
    assert(rest.len() > 0 && rest[0] == kw[0]) by {
        if rest == kw {
        } else {
            assert(rest.subrange(0, kw.len() as int)[0] == rest[0]);
        }
    }
    assert(kw[0] != '+' && kw[0] != '-' && kw[0] != '~' && kw[0] != '?');
    if m.payload is Some {
        let p = m.payload->0;
        assert(p == rest.subrange(kw.len() as int, rest.len() as int));
        assert(p[0] == rest[kw.len() as int]);
        assert(!needs_sep(kind, p));
        assert(t == qualifier_text(q) + kw + p);
        assert(qualifier_text(q) + kw + p =~= qualifier_text(q) + rest);
    } else {
        assert(t =~= qualifier_text(q) + rest);
    }
    if tok.len() > 0 && is_qualifier_char(tok[0]) {
        if tok[0] == '+' {
            assert(t =~= strip_plus(tok));
        } else {
            assert(t =~= tok);
        }
    } else {
        assert(t =~= tok);
    }
    assert(leading_qualifier(t) == q && strip_qualifier(t) =~= rest) by {
        if q == Qualifier::Pass {
            if tok.len() > 0 && tok[0] == '+' {
                assert(t == rest);
            } else {
                assert(t == tok);
            }
        } else {
            assert(t[0] == tok[0]);
            assert(t.subrange(1, t.len() as int) =~= rest);
        }
    }
    assert forall|k2: Kind| #[trigger] capture_spec(t, k2) == capture_spec(tok, k2) by {
        assert(leading_qualifier(t) == leading_qualifier(tok));
        assert(strip_qualifier(t) == strip_qualifier(tok));
    }
}

/// A suffix-preserving cut cannot create a trailing `all`.
pub proof fn lemma_ends_with_strip_plus(tok: Seq<char>, p: Seq<char>)
    requires
        seq_ends_with(strip_plus(tok), p),
    ensures
        seq_ends_with(tok, p),
{
    let t = strip_plus(tok);
    assert(tok.subrange(tok.len() - p.len(), tok.len() as int) =~= t.subrange(
        t.len() - p.len(),
        t.len() as int,
    ));
}

/// A pattern occurring in a stripped token occurs in the token.
pub proof fn lemma_contains_strip_plus(tok: Seq<char>, pat: Seq<char>)
    requires
        seq_contains(strip_plus(tok), pat),
    ensures
        seq_contains(tok, pat),
{
    if tok.len() > 0 && tok[0] == '+' {
        lemma_contains_subrange(tok, 1, tok.len() as int, pat);
    }
}

} // verus!

verus! {

/// A token in good standing: nonempty and whitespace-free.
pub open spec fn tok_wf(t: Seq<char>) -> bool {
    t.len() > 0 && space_free(t)
}

/// A version tag that rereads as a version token.
pub open spec fn version_wf(ver: Seq<char>) -> bool {
    tok_wf(ver) && is_version_token(ver)
}

/// A redirect whose rendered text is claimed by the redirect shape and
/// by no earlier one, and reads back as the same mechanism.
pub open spec fn redirect_wf(m: MechView<Seq<char>>) -> bool {
    let t = mech_text(m);
    &&& m.kind == Kind::Redirect
    &&& m.qualifier == Qualifier::Pass
    &&& m.payload is Some
    &&& tok_wf(t)
    &&& !is_version_token(t)
    &&& seq_contains(t, "redirect="@)
    &&& string_token_spec(t) == Ok::<MechView<Seq<char>>, MechErrView>(m)
}

/// An include whose rendered text is claimed by the include shape and by
/// no earlier one, and reads back as the same mechanism.
pub open spec fn include_wf(m: MechView<Seq<char>>) -> bool {
    let t = mech_text(m);
    &&& m.kind == Kind::Include
    &&& m.payload is Some
    &&& tok_wf(t)
    &&& !is_version_token(t)
    &&& !seq_contains(t, "redirect="@)
    &&& seq_contains(t, "include:"@)
    &&& string_token_spec(t) == Ok::<MechView<Seq<char>>, MechErrView>(m)
}

/// An exists whose rendered text is claimed by the exists shape and by
/// no earlier one, and reads back as the same mechanism.
pub open spec fn exists_wf(m: MechView<Seq<char>>) -> bool {
    let t = mech_text(m);
    &&& m.kind == Kind::Exists
    &&& m.payload is Some
    &&& tok_wf(t)
    &&& !is_version_token(t)
    &&& !seq_contains(t, "redirect="@)
    &&& !seq_contains(t, "include:"@)
    &&& seq_contains(t, "exists:"@)
    &&& exists_mech(t) == m
}

/// An IP mechanism whose rendered text is claimed by the IP shape and by
/// no earlier one, and reads back as the same mechanism.
pub open spec fn ip_wf(m: MechView<NetView>) -> bool {
    let t = ip_mech_text(m);
    &&& (m.kind == Kind::IpV4 || m.kind == Kind::IpV6)
    &&& m.payload is Some
    &&& tok_wf(t)
    &&& !is_version_token(t)
    &&& !seq_contains(t, "redirect="@)
    &&& !seq_contains(t, "include:"@)
    &&& !seq_contains(t, "exists:"@)
    &&& (seq_contains(t, "ip4:"@) || seq_contains(t, "ip6:"@))
    &&& ip_token_spec(t) == Ok::<MechView<NetView>, MechErrView>(m)
}

/// An `all` whose rendered text is claimed by the trailing-`all` shape
/// and by no earlier one, and reads back as the same mechanism.
pub open spec fn all_wf(m: MechView<Seq<char>>) -> bool {
    let t = mech_text(m);
    &&& m.kind == Kind::All
    &&& m.payload is None
    &&& tok_wf(t)
    &&& !is_version_token(t)
    &&& !seq_contains(t, "redirect="@)
    &&& !seq_contains(t, "include:"@)
    &&& !seq_contains(t, "exists:"@)
    &&& !seq_contains(t, "ip4:"@)
    &&& !seq_contains(t, "ip6:"@)
    &&& seq_ends_with(t, "all"@)
    &&& all_mech(t) == m
}

/// An `a` mechanism whose rendered text is claimed by the `a` capture
/// shape and by no earlier one, and reads back as the same mechanism.
pub open spec fn a_wf(m: MechView<Seq<char>>) -> bool {
    let t = mech_text(m);
    &&& m.kind == Kind::A
    &&& tok_wf(t)
    &&& !is_version_token(t)
    &&& !seq_contains(t, "redirect="@)
    &&& !seq_contains(t, "include:"@)
    &&& !seq_contains(t, "exists:"@)
    &&& !seq_contains(t, "ip4:"@)
    &&& !seq_contains(t, "ip6:"@)
    &&& !seq_ends_with(t, "all"@)
    &&& capture_spec(t, Kind::A) == Some(m)
}

/// An `mx` mechanism whose rendered text is claimed by the `mx` capture
/// shape and by no earlier one, and reads back as the same mechanism.
pub open spec fn mx_wf(m: MechView<Seq<char>>) -> bool {
    let t = mech_text(m);
    &&& m.kind == Kind::MX
    &&& tok_wf(t)
    &&& !is_version_token(t)
    &&& !seq_contains(t, "redirect="@)
    &&& !seq_contains(t, "include:"@)
    &&& !seq_contains(t, "exists:"@)
    &&& !seq_contains(t, "ip4:"@)
    &&& !seq_contains(t, "ip6:"@)
    &&& !seq_ends_with(t, "all"@)
    &&& capture_spec(t, Kind::A) is None
    &&& capture_spec(t, Kind::MX) == Some(m)
}

/// A `ptr` mechanism whose rendered text is claimed by the `ptr` capture
/// shape and by no earlier one, and reads back as the same mechanism.
pub open spec fn ptr_wf(m: MechView<Seq<char>>) -> bool {
    let t = mech_text(m);
    &&& m.kind == Kind::Ptr
    &&& tok_wf(t)
    &&& !is_version_token(t)
    &&& !seq_contains(t, "redirect="@)
    &&& !seq_contains(t, "include:"@)
    &&& !seq_contains(t, "exists:"@)
    &&& !seq_contains(t, "ip4:"@)
    &&& !seq_contains(t, "ip6:"@)
    &&& !seq_ends_with(t, "all"@)
    &&& capture_spec(t, Kind::A) is None
    &&& capture_spec(t, Kind::MX) is None
    &&& capture_spec(t, Kind::Ptr) == Some(m)
}

/// A record every one of whose members rereads as itself: what a parse
/// leaves behind, stated slot by slot.
pub open spec fn parsed_wf(v: SpfView) -> bool {
    &&& v.version.len() > 0 ==> version_wf(v.version)
    &&& v.is_redirected == (v.redirect is Some)
    &&& match v.redirect {
        Some(m) => redirect_wf(m),
        None => true,
    }
    &&& match v.includes {
        Some(g) => g.len() > 0 && forall|i: int| 0 <= i < g.len() ==> include_wf(#[trigger] g[i]),
        None => true,
    }
    &&& match v.exists_list {
        Some(g) => g.len() > 0 && forall|i: int| 0 <= i < g.len() ==> exists_wf(#[trigger] g[i]),
        None => true,
    }
    &&& match v.ip4 {
        Some(g) => g.len() > 0 && forall|i: int|
            0 <= i < g.len() ==> (#[trigger] g[i]).kind == Kind::IpV4 && g[i].payload is Some
                && g[i].payload->0.v4 == true,
        None => true,
    }
    &&& match v.ip6 {
        Some(g) => g.len() > 0 && forall|i: int|
            0 <= i < g.len() ==> (#[trigger] g[i]).kind == Kind::IpV6 && g[i].payload is Some
                && g[i].payload->0.v4 == false,
        None => true,
    }
    &&& match v.all {
        Some(m) => all_wf(m),
        None => true,
    }
    &&& match v.a {
        Some(g) => g.len() > 0 && forall|i: int| 0 <= i < g.len() ==> a_wf(#[trigger] g[i]),
        None => true,
    }
    &&& match v.mx {
        Some(g) => g.len() > 0 && forall|i: int| 0 <= i < g.len() ==> mx_wf(#[trigger] g[i]),
        None => true,
    }
    &&& match v.ptr {
        Some(m) => ptr_wf(m),
        None => true,
    }
}

} // verus!

verus! {

/// Whitespace-free text stays whitespace-free under concatenation.
pub proof fn lemma_space_free_concat(x: Seq<char>, y: Seq<char>)
    requires
        space_free(x),
        space_free(y),
    ensures
        space_free(x + y),
{
    assert forall|j: int| 0 <= j < (x + y).len() implies !crate::helpers::is_space_char(
        #[trigger] (x + y)[j],
    ) by {
        if j < x.len() {
            assert((x + y)[j] == x[j]);
        } else {
            assert((x + y)[j] == y[j - x.len()]);
        }
    }
}

/// The texts the classifier writes hold no whitespace.
#[verifier::spinoff_prover]
pub proof fn lemma_literals_space_free()
    ensures
        space_free("redirect="@),
        space_free("include:"@),
        space_free("exists:"@),
        space_free("ip4:"@),
        space_free("ip6:"@),
        space_free("all"@),
        forall|q: Qualifier| space_free(#[trigger] qualifier_text(q)),
{
    reveal_strlit("redirect=");
    reveal_strlit("include:");
    reveal_strlit("exists:");
    reveal_strlit("ip4:");
    reveal_strlit("ip6:");
    reveal_strlit("all");
    reveal_strlit("");
    reveal_strlit("-");
    reveal_strlit("~");
    reveal_strlit("?");
    assert forall|q: Qualifier| space_free(#[trigger] qualifier_text(q)) by {
        match q {
            Qualifier::Pass => assert(space_free(""@)),
            Qualifier::Fail => assert(space_free("-"@)),
            Qualifier::SoftFail => assert(space_free("~"@)),
            Qualifier::Neutral => assert(space_free("?"@)),
        }
    }
}

/// A kind's prefix text, preceded by a qualifier's text, cannot begin an
/// occurrence of any earlier classification pattern: an occurrence in the
/// rendered token must lie wholly in the payload.
#[verifier::spinoff_prover]
#[verifier::rlimit(100)]
pub proof fn lemma_prefix_blocks(q: Qualifier, kind: Kind, p: Seq<char>, pat: Seq<char>)
    requires
        kind == Kind::Redirect || kind == Kind::Include || kind == Kind::Exists || kind
            == Kind::IpV4 || kind == Kind::IpV6,
        pat == "v=spf1"@ || pat == "redirect="@ || pat == "include:"@ || pat == "exists:"@,
        !(kind == Kind::Redirect && pat != "v=spf1"@),
        !(kind == Kind::Include && (pat == "include:"@ || pat == "exists:"@)),
        !(kind == Kind::Exists && pat == "exists:"@),
        !seq_contains(p, pat),
    ensures
        !seq_contains(qualifier_text(q) + kind_text(kind) + p, pat),
{
    reveal_strlit("v=spf1");
    reveal_strlit("redirect=");
    reveal_strlit("include:");
    reveal_strlit("exists:");
    reveal_strlit("ip4:");
    reveal_strlit("ip6:");
    reveal_strlit("");
    reveal_strlit("-");
    reveal_strlit("~");
    reveal_strlit("?");
    let x = qualifier_text(q) + kind_text(kind);
    let qn = qualifier_text(q).len() as int;
    assert(qn == 0 || qn == 1);
    assert(qualifier_text(q).len() > 0 ==> (qualifier_text(q)[0] == '-' || qualifier_text(q)[0]
        == '~' || qualifier_text(q)[0] == '?'));
    assert forall|j: int| 0 <= j < x.len() && #[trigger] x[j] == pat[0] implies j + 1 < x.len()
        && x[j + 1] != pat[1] by {
        if j < qn {
            assert(x[j] == qualifier_text(q)[j]);
        } else {
            assert(x[j] == kind_text(kind)[j - qn]);
            if j + 1 < x.len() {
                assert(x[j + 1] == kind_text(kind)[j + 1 - qn]);
            }
        }
    }
    lemma_contains_concat_two_chars(x, p, pat);
    assert(qualifier_text(q) + kind_text(kind) + p =~= x + p);
}

} // verus!

verus! {

/// Part of whitespace-free text is whitespace-free.
pub proof fn lemma_space_free_subrange(s: Seq<char>, lo: int, hi: int)
    requires
        space_free(s),
        0 <= lo <= hi <= s.len(),
    ensures
        space_free(s.subrange(lo, hi)),
{
    assert forall|j: int| 0 <= j < hi - lo implies !crate::helpers::is_space_char(
        #[trigger] s.subrange(lo, hi)[j],
    ) by {
        assert(s.subrange(lo, hi)[j] == s[lo + j]);
    }
}

/// Text that does not begin with `s` does not begin with the v2 marker.
pub proof fn lemma_not_spf2_start(t: Seq<char>)
    requires
        t.len() > 0,
        t[0] != 's',
    ensures
        !seq_starts_with(t, "spf2.0"@),
{
    reveal_strlit("spf2.0");
    if seq_starts_with(t, "spf2.0"@) {
        assert(t.subrange(0, "spf2.0"@.len() as int)[0] == t[0]);
    }
}

/// A token claimed by the redirect shape leaves a mechanism in good
/// standing: its rendered text is claimed by the redirect shape again
/// and reads back as the same mechanism.
#[verifier::spinoff_prover]
#[verifier::rlimit(100)]
pub proof fn lemma_redirect_classified(tok: Seq<char>)
    requires
        tok_wf(tok),
        !is_version_token(tok),
        seq_contains(tok, "redirect="@),
    ensures
        redirect_wf(string_token_spec(tok)->Ok_0),
{
    reveal_strlit("redirect=");
    reveal_strlit("");
    lemma_last_index_of_char(tok, '=');
    lemma_literals_space_free();
    let m = string_token_spec(tok)->Ok_0;
    let p = after_last(tok, '=');
    let l = last_index_of_char(tok, '=');
    assert forall|j: int| 0 <= j < p.len() implies #[trigger] p[j] != '=' by {
        assert(p[j] == tok[l + 1 + j]);
    }
    let t = mech_text(m);
    assert(t =~= qualifier_text(Qualifier::Pass) + kind_text(Kind::Redirect) + p);
    assert(t =~= "redirect="@ + p);
    lemma_space_free_subrange(tok, l + 1, tok.len() as int);
    lemma_space_free_concat("redirect="@, p);
    assert(seq_contains(t, "redirect="@)) by {
        assert(t.subrange(0, 0 + "redirect="@.len() as int) =~= "redirect="@);
    }
    lemma_contains_subrange(tok, l + 1, tok.len() as int, "v=spf1"@);
    lemma_prefix_blocks(Qualifier::Pass, Kind::Redirect, p, "v=spf1"@);
    assert(t[0] == 'r');
    lemma_not_spf2_start(t);
    lemma_after_last_concat("redirect="@, p, '=');
    assert(string_token_spec(t) == Ok::<MechView<Seq<char>>, MechErrView>(m));
}

/// A token claimed by the include shape leaves a mechanism in good
/// standing.
#[verifier::spinoff_prover]
#[verifier::rlimit(100)]
pub proof fn lemma_include_classified(tok: Seq<char>)
    requires
        tok_wf(tok),
        !is_version_token(tok),
        !seq_contains(tok, "redirect="@),
        seq_contains(tok, "include:"@),
    ensures
        include_wf(string_token_spec(tok)->Ok_0),
{
    reveal_strlit("include:");
    reveal_strlit("exists:");
    reveal_strlit("v=spf1");
    reveal_strlit("redirect=");
    reveal_strlit("");
    reveal_strlit("-");
    reveal_strlit("~");
    reveal_strlit("?");
    lemma_last_index_of_char(tok, ':');
    lemma_literals_space_free();
    let m = string_token_spec(tok)->Ok_0;
    let q = leading_qualifier(tok);
    let p = after_last(tok, ':');
    let l = last_index_of_char(tok, ':');
    assert forall|j: int| 0 <= j < p.len() implies #[trigger] p[j] != ':' by {
        assert(p[j] == tok[l + 1 + j]);
    }
    let x = qualifier_text(q) + "include:"@;
    let qn = qualifier_text(q).len() as int;
    assert(qn == 0 || qn == 1);
    let t = mech_text(m);
    assert(t =~= qualifier_text(q) + kind_text(Kind::Include) + p);
    assert(t =~= x + p);
    lemma_space_free_subrange(tok, l + 1, tok.len() as int);
    lemma_space_free_concat(qualifier_text(q), "include:"@);
    lemma_space_free_concat(x, p);
    assert(seq_contains(t, "include:"@)) by {
        assert(t.subrange(qn, qn + "include:"@.len() as int) =~= "include:"@);
    }
    assert("v=spf1"@.len() == 6 && "include:"@.len() == 8 && "exists:"@.len() == 7
        && "redirect="@.len() == 9);
    lemma_contains_subrange(tok, l + 1, tok.len() as int, "v=spf1"@);
    lemma_prefix_blocks(q, Kind::Include, p, "v=spf1"@);
    lemma_contains_subrange(tok, l + 1, tok.len() as int, "redirect="@);
    lemma_prefix_blocks(q, Kind::Include, p, "redirect="@);
    assert(t[0] != 's') by {
        if qn == 0 {
            assert(t[0] == "include:"@[0]);
        } else {
            assert(t[0] == qualifier_text(q)[0]);
        }
    }
    lemma_not_spf2_start(t);
    assert(x[x.len() - 1] == ':');
    lemma_after_last_concat(x, p, ':');
    assert(leading_qualifier(t) == q) by {
        if qn == 0 {
            assert(t[0] == "include:"@[0]);
        } else {
            assert(t[0] == qualifier_text(q)[0]);
        }
    }
    assert(string_token_spec(t) == Ok::<MechView<Seq<char>>, MechErrView>(m));
}

/// A token claimed by the exists shape leaves a mechanism in good
/// standing.
#[verifier::spinoff_prover]
#[verifier::rlimit(100)]
pub proof fn lemma_exists_classified(tok: Seq<char>)
    requires
        tok_wf(tok),
        !is_version_token(tok),
        !seq_contains(tok, "redirect="@),
        !seq_contains(tok, "include:"@),
        seq_contains(tok, "exists:"@),
    ensures
        exists_wf(exists_mech(tok)),
{
    reveal_strlit("exists:");
    reveal_strlit("v=spf1");
    reveal_strlit("redirect=");
    reveal_strlit("include:");
    reveal_strlit("");
    reveal_strlit("-");
    reveal_strlit("~");
    reveal_strlit("?");
    lemma_last_index_of_char(tok, ':');
    lemma_literals_space_free();
    let m = exists_mech(tok);
    let q = leading_qualifier(tok);
    let p = after_last(tok, ':');
    let l = last_index_of_char(tok, ':');
    assert forall|j: int| 0 <= j < p.len() implies #[trigger] p[j] != ':' by {
        assert(p[j] == tok[l + 1 + j]);
    }
    let x = qualifier_text(q) + "exists:"@;
    let qn = qualifier_text(q).len() as int;
    assert(qn == 0 || qn == 1);
    let t = mech_text(m);
    assert(t =~= qualifier_text(q) + kind_text(Kind::Exists) + p);
    assert(t =~= x + p);
    lemma_space_free_subrange(tok, l + 1, tok.len() as int);
    lemma_space_free_concat(qualifier_text(q), "exists:"@);
    lemma_space_free_concat(x, p);
    assert(seq_contains(t, "exists:"@)) by {
        assert(t.subrange(qn, qn + "exists:"@.len() as int) =~= "exists:"@);
    }
    assert("v=spf1"@.len() == 6 && "include:"@.len() == 8 && "exists:"@.len() == 7
        && "redirect="@.len() == 9);
    lemma_contains_subrange(tok, l + 1, tok.len() as int, "v=spf1"@);
    lemma_prefix_blocks(q, Kind::Exists, p, "v=spf1"@);
    lemma_contains_subrange(tok, l + 1, tok.len() as int, "redirect="@);
    lemma_prefix_blocks(q, Kind::Exists, p, "redirect="@);
    lemma_contains_subrange(tok, l + 1, tok.len() as int, "include:"@);
    lemma_prefix_blocks(q, Kind::Exists, p, "include:"@);
    assert(t[0] != 's') by {
        if qn == 0 {
            assert(t[0] == "exists:"@[0]);
        } else {
            assert(t[0] == qualifier_text(q)[0]);
        }
    }
    lemma_not_spf2_start(t);
    assert(x[x.len() - 1] == ':');
    lemma_after_last_concat(x, p, ':');
    assert(leading_qualifier(t) == q) by {
        if qn == 0 {
            assert(t[0] == "exists:"@[0]);
        } else {
            assert(t[0] == qualifier_text(q)[0]);
        }
    }
    assert(exists_mech(t) == m);
}

} // verus!

verus! {

/// Text written in the canonical network character set is free of
/// whitespace and of every pre-IP classification pattern, whatever
/// qualifier and IP kind prefix stand before it.
#[verifier::spinoff_prover]
#[verifier::rlimit(100)]
pub proof fn lemma_ip_text_blockers(q: Qualifier, kind: Kind, canon: Seq<char>)
    requires
        kind == Kind::IpV4 || kind == Kind::IpV6,
        forall|i: int| 0 <= i < canon.len() ==> ip_text_char(#[trigger] canon[i]),
    ensures
        ({
            let t = qualifier_text(q) + kind_text(kind) + canon;
            &&& space_free(t)
            &&& !seq_contains(t, "v=spf1"@)
            &&& !seq_contains(t, "redirect="@)
            &&& !seq_contains(t, "include:"@)
            &&& !seq_contains(t, "exists:"@)
            &&& !seq_starts_with(t, "spf2.0"@)
        }),
{
    reveal_strlit("ip4:");
    reveal_strlit("ip6:");
    reveal_strlit("v=spf1");
    reveal_strlit("redirect=");
    reveal_strlit("include:");
    reveal_strlit("exists:");
    reveal_strlit("");
    reveal_strlit("-");
    reveal_strlit("~");
    reveal_strlit("?");
    let kt = kind_text(kind);
    let x = qualifier_text(q) + kt;
    let qn = qualifier_text(q).len() as int;
    assert(qn == 0 || qn == 1);
    let t = qualifier_text(q) + kt + canon;
    assert(t =~= x + canon);
    assert("v=spf1"@.len() == 6 && "include:"@.len() == 8 && "exists:"@.len() == 7
        && "redirect="@.len() == 9);
    assert(space_free(t)) by {
        assert forall|j: int| 0 <= j < t.len() implies !crate::helpers::is_space_char(
            #[trigger] t[j],
        ) by {
            if j < qn {
                assert(t[j] == qualifier_text(q)[j]);
            } else if j < x.len() {
                assert(t[j] == kt[j - qn]);
            } else {
                assert(t[j] == canon[j - x.len()]);
                assert(ip_text_char(canon[j - x.len()]));
            }
        }
    }
    lemma_charset_excludes(canon, "v=spf1"@, 1);
    lemma_prefix_blocks(q, kind, canon, "v=spf1"@);
    lemma_charset_excludes(canon, "redirect="@, 0);
    lemma_prefix_blocks(q, kind, canon, "redirect="@);
    lemma_charset_excludes(canon, "include:"@, 0);
    lemma_prefix_blocks(q, kind, canon, "include:"@);
    lemma_charset_excludes(canon, "exists:"@, 1);
    lemma_prefix_blocks(q, kind, canon, "exists:"@);
    assert(t[0] != 's') by {
        if qn == 0 {
            assert(t[0] == kt[0]);
        } else {
            assert(t[0] == qualifier_text(q)[0]);
        }
    }
    lemma_not_spf2_start(t);
}

/// An IP mechanism of the shape the parse produces — kind and family in
/// agreement, network in good standing — is in good standing as a whole:
/// its rendered text is claimed by the IP shape and by no earlier one,
/// and reads back as the same mechanism.
#[verifier::spinoff_prover]
#[verifier::rlimit(100)]
pub proof fn lemma_ip_classified(m: MechView<NetView>)
    requires
        m.kind == Kind::IpV4 || m.kind == Kind::IpV6,
        m.payload is Some,
        net_wf(m.payload->0),
        m.payload->0.v4 == (m.kind == Kind::IpV4),
    ensures
        ip_wf(m),
{
    reveal_strlit("ip4:");
    reveal_strlit("ip6:");
    reveal_strlit("");
    reveal_strlit("-");
    reveal_strlit("~");
    reveal_strlit("?");
    let q = m.qualifier;
    let canon = m.payload->0.repr;
    let kt = kind_text(m.kind);
    let x = qualifier_text(q) + kt;
    let qn = qualifier_text(q).len() as int;
    assert(qn == 0 || qn == 1);
    let t = ip_mech_text(m);
    assert(t =~= x + canon);
    assert(t == qualifier_text(q) + kt + canon);
    lemma_ip_text_blockers(q, m.kind, canon);
    assert(seq_contains(t, kt)) by {
        assert(t.subrange(qn, qn + kt.len() as int) =~= kt);
    }
    let rest = crate::helpers::strip_qualifier(t);
    assert(leading_qualifier(t) == q && rest =~= kt + canon) by {
        if qn == 0 {
            assert(t[0] == kt[0]);
            assert(t =~= kt + canon);
        } else {
            assert(t[0] == qualifier_text(q)[0]);
            assert(t.subrange(1, t.len() as int) =~= kt + canon);
        }
    }
    assert(rest.subrange(0, 4) =~= kt);
    assert(rest.subrange(4, rest.len() as int) =~= canon);
    if m.kind == Kind::IpV6 {
        assert(!seq_starts_with(rest, "ip4:"@)) by {
            if seq_starts_with(rest, "ip4:"@) {
                assert(rest.subrange(0, 4)[2] == rest[2]);
            }
        }
        assert(seq_starts_with(rest, "ip6:"@));
    } else {
        assert(seq_starts_with(rest, "ip4:"@));
    }
    assert(ip_token_spec(t) == Ok::<MechView<NetView>, MechErrView>(m));
}

/// An `all` mechanism with no payload is always in good standing: its
/// rendered text is too short for any earlier pattern, ends in `all`,
/// and reads back with the same qualifier.
#[verifier::spinoff_prover]
#[verifier::rlimit(100)]
pub proof fn lemma_all_classified(q: Qualifier)
    ensures
        all_wf(MechView { kind: Kind::All, qualifier: q, payload: None::<Seq<char>> }),
{
    reveal_strlit("all");
    reveal_strlit("ip4:");
    reveal_strlit("ip6:");
    reveal_strlit("v=spf1");
    reveal_strlit("redirect=");
    reveal_strlit("include:");
    reveal_strlit("exists:");
    reveal_strlit("");
    reveal_strlit("-");
    reveal_strlit("~");
    reveal_strlit("?");
    let m = MechView { kind: Kind::All, qualifier: q, payload: None::<Seq<char>> };
    let t = mech_text(m);
    let qn = qualifier_text(q).len() as int;
    assert(qn == 0 || qn == 1);
    assert(t == qualifier_text(q) + "all"@);
    assert(t.len() == qn + 3);
    lemma_literals_space_free();
    lemma_space_free_concat(qualifier_text(q), "all"@);
    assert(!seq_contains(t, "ip4:"@)) by {
        if seq_contains(t, "ip4:"@) {
            let i = choose|i: int|
                0 <= i && i + "ip4:"@.len() <= t.len() && #[trigger] t.subrange(
                    i,
                    i + "ip4:"@.len(),
                ) == "ip4:"@;
            assert(t.subrange(i, i + 4)[2] == t[i + 2]);
            if i + 2 < qn {
            } else {
                assert(t[i + 2] == "all"@[i + 2 - qn]);
            }
        }
    }
    assert(!seq_contains(t, "ip6:"@)) by {
        if seq_contains(t, "ip6:"@) {
            let i = choose|i: int|
                0 <= i && i + "ip6:"@.len() <= t.len() && #[trigger] t.subrange(
                    i,
                    i + "ip6:"@.len(),
                ) == "ip6:"@;
            assert(t.subrange(i, i + 4)[2] == t[i + 2]);
            if i + 2 < qn {
            } else {
                assert(t[i + 2] == "all"@[i + 2 - qn]);
            }
        }
    }
    assert(seq_ends_with(t, "all"@)) by {
        assert(t.subrange(t.len() - 3, t.len() as int) =~= "all"@);
    }
    assert(t[0] != 's') by {
        if qn == 0 {
            assert(t[0] == "all"@[0]);
        } else {
            assert(t[0] == qualifier_text(q)[0]);
        }
    }
    lemma_not_spf2_start(t);
    assert(leading_qualifier(t) == q) by {
        if qn == 0 {
            assert(t[0] == "all"@[0]);
        } else {
            assert(t[0] == qualifier_text(q)[0]);
        }
    }
    assert(all_mech(t) == m);
}

/// A token claimed by one of the keyword capture shapes leaves a
/// mechanism in good standing: the rendered text is the token less a
/// redundant `+`, so it is claimed by the same shape and no earlier one.
#[verifier::spinoff_prover]
#[verifier::rlimit(100)]
pub proof fn lemma_capture_classified(tok: Seq<char>, kind: Kind)
    requires
        tok_wf(tok),
        kind == Kind::A || kind == Kind::MX || kind == Kind::Ptr,
        !is_version_token(tok),
        !seq_contains(tok, "redirect="@),
        !seq_contains(tok, "include:"@),
        !seq_contains(tok, "exists:"@),
        !seq_contains(tok, "ip4:"@),
        !seq_contains(tok, "ip6:"@),
        !seq_ends_with(tok, "all"@),
        capture_spec(tok, kind) is Some,
        kind == Kind::MX ==> capture_spec(tok, Kind::A) is None,
        kind == Kind::Ptr ==> capture_spec(tok, Kind::A) is None && capture_spec(
            tok,
            Kind::MX,
        ) is None,
    ensures
        kind == Kind::A ==> a_wf(capture_spec(tok, Kind::A)->0),
        kind == Kind::MX ==> mx_wf(capture_spec(tok, Kind::MX)->0),
        kind == Kind::Ptr ==> ptr_wf(capture_spec(tok, Kind::Ptr)->0),
{
    reveal_strlit("a");
    reveal_strlit("mx");
    reveal_strlit("ptr");
    reveal_strlit("");
    reveal_strlit("-");
    reveal_strlit("~");
    reveal_strlit("?");
    lemma_capture_text(tok, kind);
    let m = capture_spec(tok, kind)->0;
    let t = mech_text(m);
    assert(m.kind == kind);
    let rest = crate::helpers::strip_qualifier(tok);
    assert(rest.len() > 0 && rest[0] == kind_text(kind)[0]) by {
        if rest == kind_text(kind) {
        } else {
            assert(rest.subrange(0, kind_text(kind).len() as int)[0] == rest[0]);
        }
    }
    assert(t.len() > 0) by {
        if tok.len() > 0 && tok[0] == '+' {
            assert(t == tok.subrange(1, tok.len() as int));
            assert(rest == tok.subrange(1, tok.len() as int));
        }
    }
    assert(space_free(t)) by {
        if tok.len() > 0 && tok[0] == '+' {
            lemma_space_free_subrange(tok, 1, tok.len() as int);
        }
    }
    if seq_contains(t, "redirect="@) {
        lemma_contains_strip_plus(tok, "redirect="@);
    }
    if seq_contains(t, "include:"@) {
        lemma_contains_strip_plus(tok, "include:"@);
    }
    if seq_contains(t, "exists:"@) {
        lemma_contains_strip_plus(tok, "exists:"@);
    }
    if seq_contains(t, "ip4:"@) {
        lemma_contains_strip_plus(tok, "ip4:"@);
    }
    if seq_contains(t, "ip6:"@) {
        lemma_contains_strip_plus(tok, "ip6:"@);
    }
    if seq_contains(t, "v=spf1"@) {
        lemma_contains_strip_plus(tok, "v=spf1"@);
    }
    if seq_ends_with(t, "all"@) {
        lemma_ends_with_strip_plus(tok, "all"@);
    }
    assert(t[0] != 's') by {
        if leading_qualifier(tok) == Qualifier::Pass {
            assert(t == crate::helpers::strip_qualifier(t));
            assert(leading_qualifier(t) == Qualifier::Pass);
            assert(crate::helpers::strip_qualifier(t) == rest);
        } else {
            assert(t[0] == qualifier_text(leading_qualifier(tok))[0]);
        }
    }
    lemma_not_spf2_start(t);
}

} // verus!

verus! {

/// One classification step keeps every slot of the record in good
/// standing.
#[verifier::spinoff_prover]
#[verifier::rlimit(100)]
pub proof fn lemma_step_preserves_wf(v: SpfView, tok: Seq<char>)
    requires
        parsed_wf(v),
        tok_wf(tok),
    ensures
        spec_step(v, tok) is Ok ==> parsed_wf(spec_step(v, tok)->Ok_0),
{
    if spec_step(v, tok) is Ok {
        let w = spec_step(v, tok)->Ok_0;
        if is_version_token(tok) {
        } else if seq_contains(tok, "redirect="@) {
            lemma_redirect_classified(tok);
        } else if seq_contains(tok, "include:"@) {
            lemma_include_classified(tok);
            let m = string_token_spec(tok)->Ok_0;
            match v.includes {
                Some(g) => {
                    assert forall|i: int| 0 <= i < g.push(m).len() implies include_wf(
                        #[trigger] g.push(m)[i],
                    ) by {
                        if i < g.len() {
                            assert(g.push(m)[i] == g[i]);
                        } else {
                            assert(g.push(m)[i] == m);
                        }
                    }
                },
                None => {
                    assert(seq![m][0] == m);
                },
            }
        } else if seq_contains(tok, "exists:"@) {
            lemma_exists_classified(tok);
            let m = exists_mech(tok);
            match v.exists_list {
                Some(g) => {
                    assert forall|i: int| 0 <= i < g.push(m).len() implies exists_wf(
                        #[trigger] g.push(m)[i],
                    ) by {
                        if i < g.len() {
                            assert(g.push(m)[i] == g[i]);
                        } else {
                            assert(g.push(m)[i] == m);
                        }
                    }
                },
                None => {
                    assert(seq![m][0] == m);
                },
            }
        } else if seq_contains(tok, "ip4:"@) || seq_contains(tok, "ip6:"@) {
            if ip_token_spec(tok) is Ok {
                let m = ip_token_spec(tok)->Ok_0;
                if m.kind == Kind::IpV4 {
                    match v.ip4 {
                        Some(g) => {
                            assert forall|i: int|
                                0 <= i < g.push(m).len() implies (#[trigger] g.push(m)[i]).kind
                                == Kind::IpV4 && g.push(m)[i].payload is Some && g.push(
                                m,
                            )[i].payload->0.v4 == true by {
                                if i < g.len() {
                                    assert(g.push(m)[i] == g[i]);
                                } else {
                                    assert(g.push(m)[i] == m);
                                }
                            }
                        },
                        None => {
                            assert(seq![m][0] == m);
                        },
                    }
                } else {
                    match v.ip6 {
                        Some(g) => {
                            assert forall|i: int|
                                0 <= i < g.push(m).len() implies (#[trigger] g.push(m)[i]).kind
                                == Kind::IpV6 && g.push(m)[i].payload is Some && g.push(
                                m,
                            )[i].payload->0.v4 == false by {
                                if i < g.len() {
                                    assert(g.push(m)[i] == g[i]);
                                } else {
                                    assert(g.push(m)[i] == m);
                                }
                            }
                        },
                        None => {
                            assert(seq![m][0] == m);
                        },
                    }
                }
            }
        } else if seq_ends_with(tok, "all"@) {
            lemma_all_classified(leading_qualifier(tok));
        } else if capture_spec(tok, Kind::A) is Some {
            lemma_capture_classified(tok, Kind::A);
            let m = capture_spec(tok, Kind::A)->0;
            match v.a {
                Some(g) => {
                    assert forall|i: int| 0 <= i < g.push(m).len() implies a_wf(
                        #[trigger] g.push(m)[i],
                    ) by {
                        if i < g.len() {
                            assert(g.push(m)[i] == g[i]);
                        } else {
                            assert(g.push(m)[i] == m);
                        }
                    }
                },
                None => {
                    assert(seq![m][0] == m);
                },
            }
        } else if capture_spec(tok, Kind::MX) is Some {
            lemma_capture_classified(tok, Kind::MX);
            let m = capture_spec(tok, Kind::MX)->0;
            match v.mx {
                Some(g) => {
                    assert forall|i: int| 0 <= i < g.push(m).len() implies mx_wf(
                        #[trigger] g.push(m)[i],
                    ) by {
                        if i < g.len() {
                            assert(g.push(m)[i] == g[i]);
                        } else {
                            assert(g.push(m)[i] == m);
                        }
                    }
                },
                None => {
                    assert(seq![m][0] == m);
                },
            }
        } else if capture_spec(tok, Kind::Ptr) is Some {
            lemma_capture_classified(tok, Kind::Ptr);
        } else {
        }
    }
}

/// Folding well-formed tokens into a record in good standing leaves a
/// record in good standing.
pub proof fn lemma_fold_preserves_wf(v: SpfView, toks: Seq<Seq<char>>)
    requires
        parsed_wf(v),
        forall|i: int| 0 <= i < toks.len() ==> tok_wf(#[trigger] toks[i]),
    ensures
        spec_fold(v, toks) is Ok ==> parsed_wf(spec_fold(v, toks)->Ok_0),
    decreases toks.len(),
{
    if toks.len() > 0 {
        lemma_step_preserves_wf(v, toks[0]);
        if spec_step(v, toks[0]) is Ok {
            let v2 = spec_step(v, toks[0])->Ok_0;
            assert forall|i: int| 0 <= i < toks.drop_first().len() implies tok_wf(
                #[trigger] toks.drop_first()[i],
            ) by {
                assert(toks.drop_first()[i] == toks[i + 1]);
            }
            lemma_fold_preserves_wf(v2, toks.drop_first());
        }
    }
}

/// A record parsed from text is in good standing, slot by slot.
pub proof fn lemma_parse_wf(s: Seq<char>)
    requires
        spec_parse(s) is Ok,
    ensures
        parsed_wf(spec_parse(s)->Ok_0),
{
    lemma_token_props(s);
    assert forall|i: int| 0 <= i < spec_tokens(s).len() implies tok_wf(
        #[trigger] spec_tokens(s)[i],
    ) by {}
    lemma_fold_preserves_wf(empty_view(), spec_tokens(s));
}

} // verus!

verus! {

/// The token list a record renders to: the version tag, then one token
/// per mechanism in the builder's fixed group order.
pub open spec fn group_tokens(g: Seq<MechView<Seq<char>>>) -> Seq<Seq<char>> {
    Seq::new(g.len(), |i: int| mech_text(g[i]))
}

/// The token list an IP group renders to.
pub open spec fn ip_group_tokens(g: Seq<MechView<NetView>>) -> Seq<Seq<char>> {
    Seq::new(g.len(), |i: int| ip_mech_text(g[i]))
}

/// The token list an optional group renders to.
pub open spec fn opt_group_tokens(g: Option<Seq<MechView<Seq<char>>>>) -> Seq<Seq<char>> {
    match g {
        Some(s) => group_tokens(s),
        None => Seq::empty(),
    }
}

/// The token list an optional IP group renders to.
pub open spec fn opt_ip_group_tokens(g: Option<Seq<MechView<NetView>>>) -> Seq<Seq<char>> {
    match g {
        Some(s) => ip_group_tokens(s),
        None => Seq::empty(),
    }
}

/// The token list an optional single mechanism renders to.
pub open spec fn opt_one_tokens(m: Option<MechView<Seq<char>>>) -> Seq<Seq<char>> {
    match m {
        Some(p) => seq![mech_text(p)],
        None => Seq::empty(),
    }
}

/// The whole token list of a rendered record.
pub open spec fn record_tokens(v: SpfView) -> Seq<Seq<char>> {
    seq![v.version] + opt_group_tokens(v.a) + opt_group_tokens(v.mx) + opt_group_tokens(v.includes)
        + opt_ip_group_tokens(v.ip4) + opt_ip_group_tokens(v.ip6) + opt_group_tokens(
        v.exists_list,
    ) + opt_one_tokens(v.ptr) + (if v.is_redirected {
        opt_one_tokens(v.redirect)
    } else {
        Seq::empty()
    }) + (if !v.is_redirected {
        opt_one_tokens(v.all)
    } else {
        Seq::empty()
    })
}

/// Whitespace-free text holds no doubled whitespace.
pub proof fn lemma_space_free_no_double(s: Seq<char>)
    requires
        space_free(s),
    ensures
        !has_double_space(s),
{
}

/// Appending one rendered token after a space: the line grows by one
/// token, stays free of doubled whitespace and still ends in a
/// non-space.
pub proof fn lemma_render_one(acc: Seq<char>, t: Seq<char>)
    requires
        acc.len() > 0,
        !crate::helpers::is_space_char(acc[acc.len() - 1]),
        !has_double_space(acc),
        t.len() > 0,
        space_free(t),
    ensures
        ({
            let w = acc + " "@ + t;
            &&& spec_tokens(w) == spec_tokens(acc) + seq![t]
            &&& !has_double_space(w)
            &&& w.len() > 0
            &&& !crate::helpers::is_space_char(w[w.len() - 1])
        }),
{
    reveal_strlit(" ");
    lemma_no_double_space_append(acc, t);
    lemma_tokens_split_at_space(acc, " "@ + t);
    assert(acc + " "@ + t =~= acc + (" "@ + t));
    assert((" "@ + t).drop_first() =~= t);
    lemma_tokens_single(t);
    assert(spec_tokens(" "@ + t) == seq![t]);
}

/// Rendering a group of text mechanisms appends their tokens, one each.
pub proof fn lemma_render_group(acc: Seq<char>, g: Seq<MechView<Seq<char>>>)
    requires
        acc.len() > 0,
        !crate::helpers::is_space_char(acc[acc.len() - 1]),
        !has_double_space(acc),
        forall|i: int|
            0 <= i < g.len() ==> mech_text(#[trigger] g[i]).len() > 0 && space_free(
                mech_text(g[i]),
            ),
    ensures
        ({
            let w = acc + mechs_group_text(g);
            &&& spec_tokens(w) == spec_tokens(acc) + group_tokens(g)
            &&& !has_double_space(w)
            &&& w.len() > 0
            &&& !crate::helpers::is_space_char(w[w.len() - 1])
        }),
    decreases g.len(),
{
    if g.len() == 0 {
        assert(acc + mechs_group_text(g) =~= acc);
        assert(group_tokens(g) =~= Seq::<Seq<char>>::empty());
        assert(spec_tokens(acc) + Seq::<Seq<char>>::empty() =~= spec_tokens(acc));
    } else {
        let t0 = mech_text(g[0]);
        let acc2 = acc + " "@ + t0;
        lemma_render_one(acc, t0);
        assert forall|i: int|
            0 <= i < g.drop_first().len() implies mech_text(#[trigger] g.drop_first()[i]).len() > 0
            && space_free(mech_text(g.drop_first()[i])) by {
            assert(g.drop_first()[i] == g[i + 1]);
        }
        lemma_render_group(acc2, g.drop_first());
        assert(acc + mechs_group_text(g) =~= acc2 + mechs_group_text(g.drop_first()));
        assert(group_tokens(g) =~= seq![t0] + group_tokens(g.drop_first()));
        assert(spec_tokens(acc) + group_tokens(g) =~= spec_tokens(acc) + seq![t0] + group_tokens(
            g.drop_first(),
        ));
        assert(spec_tokens(acc2) == spec_tokens(acc) + seq![t0]);
    }
}

/// Rendering an IP group appends its tokens, one each.
pub proof fn lemma_render_ip_group(acc: Seq<char>, g: Seq<MechView<NetView>>)
    requires
        acc.len() > 0,
        !crate::helpers::is_space_char(acc[acc.len() - 1]),
        !has_double_space(acc),
        forall|i: int|
            0 <= i < g.len() ==> ip_mech_text(#[trigger] g[i]).len() > 0 && space_free(
                ip_mech_text(g[i]),
            ),
    ensures
        ({
            let w = acc + ip_group_text(g);
            &&& spec_tokens(w) == spec_tokens(acc) + ip_group_tokens(g)
            &&& !has_double_space(w)
            &&& w.len() > 0
            &&& !crate::helpers::is_space_char(w[w.len() - 1])
        }),
    decreases g.len(),
{
    if g.len() == 0 {
        assert(acc + ip_group_text(g) =~= acc);
        assert(ip_group_tokens(g) =~= Seq::<Seq<char>>::empty());
        assert(spec_tokens(acc) + Seq::<Seq<char>>::empty() =~= spec_tokens(acc));
    } else {
        let t0 = ip_mech_text(g[0]);
        let acc2 = acc + " "@ + t0;
        lemma_render_one(acc, t0);
        assert forall|i: int|
            0 <= i < g.drop_first().len() implies ip_mech_text(#[trigger] g.drop_first()[i]).len()
            > 0 && space_free(ip_mech_text(g.drop_first()[i])) by {
            assert(g.drop_first()[i] == g[i + 1]);
        }
        lemma_render_ip_group(acc2, g.drop_first());
        assert(acc + ip_group_text(g) =~= acc2 + ip_group_text(g.drop_first()));
        assert(ip_group_tokens(g) =~= seq![t0] + ip_group_tokens(g.drop_first()));
        assert(spec_tokens(acc) + ip_group_tokens(g) =~= spec_tokens(acc) + seq![t0]
            + ip_group_tokens(g.drop_first()));
        assert(spec_tokens(acc2) == spec_tokens(acc) + seq![t0]);
    }
}

} // verus!

verus! {

} // verus!

verus! {

/// The rendered line after each stage of the builder, version first.
pub open spec fn rt_stage(v: SpfView, k: int) -> Seq<char>
    decreases k,
{
    if k <= 0 {
        v.version
    } else if k == 1 {
        rt_stage(v, 0) + opt_group_text(v.a)
    } else if k == 2 {
        rt_stage(v, 1) + opt_group_text(v.mx)
    } else if k == 3 {
        rt_stage(v, 2) + opt_group_text(v.includes)
    } else if k == 4 {
        rt_stage(v, 3) + opt_ip_group_text(v.ip4)
    } else if k == 5 {
        rt_stage(v, 4) + opt_ip_group_text(v.ip6)
    } else if k == 6 {
        rt_stage(v, 5) + opt_group_text(v.exists_list)
    } else if k == 7 {
        rt_stage(v, 6) + opt_one_text(v.ptr)
    } else if k == 8 {
        rt_stage(v, 7) + (if v.is_redirected {
            opt_one_text(v.redirect)
        } else {
            Seq::empty()
        })
    } else {
        rt_stage(v, 8) + (if !v.is_redirected {
            opt_one_text(v.all)
        } else {
            Seq::empty()
        })
    }
}

/// The token list accumulated after each stage of the builder.
pub open spec fn tk_stage(v: SpfView, k: int) -> Seq<Seq<char>>
    decreases k,
{
    if k <= 0 {
        seq![v.version]
    } else if k == 1 {
        tk_stage(v, 0) + opt_group_tokens(v.a)
    } else if k == 2 {
        tk_stage(v, 1) + opt_group_tokens(v.mx)
    } else if k == 3 {
        tk_stage(v, 2) + opt_group_tokens(v.includes)
    } else if k == 4 {
        tk_stage(v, 3) + opt_ip_group_tokens(v.ip4)
    } else if k == 5 {
        tk_stage(v, 4) + opt_ip_group_tokens(v.ip6)
    } else if k == 6 {
        tk_stage(v, 5) + opt_group_tokens(v.exists_list)
    } else if k == 7 {
        tk_stage(v, 6) + opt_one_tokens(v.ptr)
    } else if k == 8 {
        tk_stage(v, 7) + (if v.is_redirected {
            opt_one_tokens(v.redirect)
        } else {
            Seq::empty()
        })
    } else {
        tk_stage(v, 8) + (if !v.is_redirected {
            opt_one_tokens(v.all)
        } else {
            Seq::empty()
        })
    }
}

/// The facts carried from stage to stage: the line so far splits into
/// the tokens so far, holds no doubled whitespace and ends in a
/// non-space.
pub open spec fn stage_ok(v: SpfView, k: int) -> bool {
    let w = rt_stage(v, k);
    &&& spec_tokens(w) == tk_stage(v, k)
    &&& !has_double_space(w)
    &&& w.len() > 0
    &&& !crate::helpers::is_space_char(w[w.len() - 1])
}

#[verifier::spinoff_prover]
#[verifier::rlimit(100)]
proof fn lemma_rt_stage3(v: SpfView)
    requires
        parsed_wf(v),
        v.version.len() > 0,
    ensures
        stage_ok(v, 3),
{
    assert(space_free(v.version));
    lemma_space_free_no_double(v.version);
    lemma_tokens_single(v.version);
    assert(stage_ok(v, 0));
    match v.a {
        Some(g) => {
            lemma_render_group(rt_stage(v, 0), g);
        },
        None => {
            assert(rt_stage(v, 1) =~= rt_stage(v, 0));
            assert(tk_stage(v, 1) =~= tk_stage(v, 0));
        },
    }
    assert(stage_ok(v, 1));
    match v.mx {
        Some(g) => {
            lemma_render_group(rt_stage(v, 1), g);
        },
        None => {
            assert(rt_stage(v, 2) =~= rt_stage(v, 1));
            assert(tk_stage(v, 2) =~= tk_stage(v, 1));
        },
    }
    assert(stage_ok(v, 2));
    match v.includes {
        Some(g) => {
            lemma_render_group(rt_stage(v, 2), g);
        },
        None => {
            assert(rt_stage(v, 3) =~= rt_stage(v, 2));
            assert(tk_stage(v, 3) =~= tk_stage(v, 2));
        },
    }
    assert(stage_ok(v, 3));
}

#[verifier::spinoff_prover]
#[verifier::rlimit(100)]
proof fn lemma_rt_stage6(v: SpfView)
    requires
        parsed_wf(v),
        nets_canonical(v),
        v.version.len() > 0,
    ensures
        stage_ok(v, 6),
{
    lemma_rt_stage3(v);
    match v.ip4 {
        Some(g) => {
            assert forall|i: int|
                0 <= i < g.len() implies ip_mech_text(#[trigger] g[i]).len() > 0 && space_free(
                ip_mech_text(g[i]),
            ) by {
                lemma_ip_classified(g[i]);
            }
            lemma_render_ip_group(rt_stage(v, 3), g);
        },
        None => {
            assert(rt_stage(v, 4) =~= rt_stage(v, 3));
            assert(tk_stage(v, 4) =~= tk_stage(v, 3));
        },
    }
    assert(stage_ok(v, 4));
    match v.ip6 {
        Some(g) => {
            assert forall|i: int|
                0 <= i < g.len() implies ip_mech_text(#[trigger] g[i]).len() > 0 && space_free(
                ip_mech_text(g[i]),
            ) by {
                lemma_ip_classified(g[i]);
            }
            lemma_render_ip_group(rt_stage(v, 4), g);
        },
        None => {
            assert(rt_stage(v, 5) =~= rt_stage(v, 4));
            assert(tk_stage(v, 5) =~= tk_stage(v, 4));
        },
    }
    assert(stage_ok(v, 5));
    match v.exists_list {
        Some(g) => {
            lemma_render_group(rt_stage(v, 5), g);
        },
        None => {
            assert(rt_stage(v, 6) =~= rt_stage(v, 5));
            assert(tk_stage(v, 6) =~= tk_stage(v, 5));
        },
    }
    assert(stage_ok(v, 6));
}

#[verifier::spinoff_prover]
#[verifier::rlimit(100)]
proof fn lemma_rt_stage7(v: SpfView)
    requires
        parsed_wf(v),
        nets_canonical(v),
        v.version.len() > 0,
    ensures
        stage_ok(v, 7),
{
    lemma_rt_stage6(v);
    match v.ptr {
        Some(p) => {
            lemma_render_one(rt_stage(v, 6), mech_text(p));
            assert(rt_stage(v, 7) =~= rt_stage(v, 6) + " "@ + mech_text(p));
            assert(tk_stage(v, 7) =~= spec_tokens(rt_stage(v, 6)) + seq![mech_text(p)]);
        },
        None => {
            assert(rt_stage(v, 7) =~= rt_stage(v, 6));
            assert(tk_stage(v, 7) =~= tk_stage(v, 6));
        },
    }
}

#[verifier::spinoff_prover]
#[verifier::rlimit(100)]
proof fn lemma_rt_stage8(v: SpfView)
    requires
        parsed_wf(v),
        nets_canonical(v),
        v.version.len() > 0,
    ensures
        stage_ok(v, 8),
{
    lemma_rt_stage7(v);
    if v.is_redirected {
        match v.redirect {
            Some(p) => {
                lemma_render_one(rt_stage(v, 7), mech_text(p));
                assert(rt_stage(v, 8) =~= rt_stage(v, 7) + " "@ + mech_text(p));
                assert(tk_stage(v, 8) =~= spec_tokens(rt_stage(v, 7)) + seq![mech_text(p)]);
            },
            None => {
                assert(rt_stage(v, 8) =~= rt_stage(v, 7));
                assert(tk_stage(v, 8) =~= tk_stage(v, 7));
            },
        }
    } else {
        assert(rt_stage(v, 8) =~= rt_stage(v, 7));
        assert(tk_stage(v, 8) =~= tk_stage(v, 7));
    }
}

#[verifier::spinoff_prover]
#[verifier::rlimit(100)]
proof fn lemma_rt_stage9(v: SpfView)
    requires
        parsed_wf(v),
        nets_canonical(v),
        v.version.len() > 0,
    ensures
        stage_ok(v, 9),
{
    lemma_rt_stage8(v);
    if !v.is_redirected {
        match v.all {
            Some(p) => {
                lemma_render_one(rt_stage(v, 8), mech_text(p));
                assert(rt_stage(v, 9) =~= rt_stage(v, 8) + " "@ + mech_text(p));
                assert(tk_stage(v, 9) =~= spec_tokens(rt_stage(v, 8)) + seq![mech_text(p)]);
            },
            None => {
                assert(rt_stage(v, 9) =~= rt_stage(v, 8));
                assert(tk_stage(v, 9) =~= tk_stage(v, 8));
            },
        }
    } else {
        assert(rt_stage(v, 9) =~= rt_stage(v, 8));
        assert(tk_stage(v, 9) =~= tk_stage(v, 8));
    }
}

/// A rendered record splits back into its token list — the version tag,
/// then one token per mechanism in the builder's fixed order — and the
/// line holds no doubled whitespace.
#[verifier::spinoff_prover]
#[verifier::rlimit(100)]
pub proof fn lemma_record_tokens(v: SpfView)
    requires
        parsed_wf(v),
        nets_canonical(v),
        v.version.len() > 0,
    ensures
        spec_tokens(record_text(v)) == record_tokens(v),
        !has_double_space(record_text(v)),
{
    lemma_rt_stage9(v);
    assert(rt_stage(v, 9) =~= record_text(v)) by {
        reveal_with_fuel(rt_stage, 12);
    }
    assert(tk_stage(v, 9) =~= record_tokens(v)) by {
        reveal_with_fuel(tk_stage, 12);
    }
}

} // verus!

verus! {

/// Extending an optional group by a list of members; an absent group
/// stays absent when the list is empty.
pub open spec fn opt_extend<P>(gopt: Option<Seq<P>>, g: Seq<P>) -> Option<Seq<P>> {
    if g.len() == 0 {
        gopt
    } else {
        match gopt {
            Some(s) => Some(s + g),
            None => Some(g),
        }
    }
}

/// Folding a split token list folds the parts in order.
pub proof fn lemma_fold_append_split(v: SpfView, t1: Seq<Seq<char>>, t2: Seq<Seq<char>>)
    ensures
        spec_fold(v, t1 + t2) == (match spec_fold(v, t1) {
            Ok(v2) => spec_fold(v2, t2),
            Err(e) => Err(e),
        }),
    decreases t1.len(),
{
    if t1.len() == 0 {
        assert(t1 + t2 =~= t2);
    } else {
        assert((t1 + t2)[0] == t1[0]);
        assert((t1 + t2).len() > 0);
        match spec_step(v, t1[0]) {
            Ok(v2) => {
                lemma_fold_append_split(v2, t1.drop_first(), t2);
                assert((t1 + t2).drop_first() =~= t1.drop_first() + t2);
            },
            Err(e) => {},
        }
    }
}

/// Folding one token is one step.
pub proof fn lemma_fold_single(v: SpfView, t: Seq<char>)
    ensures
        spec_fold(v, seq![t]) == (match spec_step(v, t) {
            Ok(v2) => Ok::<SpfView, SpfErrView>(v2),
            Err(e) => Err::<SpfView, SpfErrView>(e),
        }),
{
    assert(seq![t].len() == 1);
    assert(seq![t][0] == t);
    assert(seq![t].drop_first() =~= Seq::<Seq<char>>::empty());
    match spec_step(v, t) {
        Ok(v2) => {
            assert(spec_fold(v2, Seq::<Seq<char>>::empty()) == Ok::<SpfView, SpfErrView>(v2));
            assert(spec_fold(v2, seq![t].drop_first()) == spec_fold(
                v2,
                Seq::<Seq<char>>::empty(),
            ));
        },
        Err(e) => {},
    }
}

/// A version tag in good standing steps the fold by setting the tag.
pub proof fn lemma_step_version(v: SpfView, t: Seq<char>)
    requires
        version_wf(t),
    ensures
        spec_step(v, t) == Ok::<SpfView, SpfErrView>(SpfView { version: t, ..v }),
{
}

/// A redirect in good standing steps the fold by setting the redirect.
pub proof fn lemma_step_redirect(v: SpfView, m: MechView<Seq<char>>)
    requires
        redirect_wf(m),
    ensures
        spec_step(v, mech_text(m)) == Ok::<SpfView, SpfErrView>(
            SpfView { redirect: Some(m), is_redirected: true, ..v },
        ),
{
}

/// A `ptr` in good standing steps the fold by setting the `ptr` slot.
pub proof fn lemma_step_ptr(v: SpfView, m: MechView<Seq<char>>)
    requires
        ptr_wf(m),
    ensures
        spec_step(v, mech_text(m)) == Ok::<SpfView, SpfErrView>(SpfView { ptr: Some(m), ..v }),
{
}

/// An `all` in good standing steps the fold by setting the `all` slot.
pub proof fn lemma_step_all(v: SpfView, m: MechView<Seq<char>>)
    requires
        all_wf(m),
    ensures
        spec_step(v, mech_text(m)) == Ok::<SpfView, SpfErrView>(SpfView { all: Some(all_mech(mech_text(m))), ..v }),
        all_mech(mech_text(m)) == m,
{
}

/// Folding the rendered tokens of an `a` group appends its members.
pub proof fn lemma_fold_a(v: SpfView, g: Seq<MechView<Seq<char>>>)
    requires
        forall|i: int| 0 <= i < g.len() ==> a_wf(#[trigger] g[i]),
    ensures
        spec_fold(v, group_tokens(g)) == Ok::<SpfView, SpfErrView>(
            SpfView { a: opt_extend(v.a, g), ..v },
        ),
    decreases g.len(),
{
    if g.len() == 0 {
        assert(group_tokens(g) =~= Seq::<Seq<char>>::empty());
        assert((SpfView { a: opt_extend(v.a, g), ..v }) == v);
    } else {
        let m = g[0];
        let t = mech_text(m);
        assert(group_tokens(g)[0] == t);
        let v2 = SpfView { a: opt_push(v.a, m), ..v };
        assert(spec_step(v, t) == Ok::<SpfView, SpfErrView>(v2));
        assert forall|i: int| 0 <= i < g.drop_first().len() implies a_wf(
            #[trigger] g.drop_first()[i],
        ) by {
            assert(g.drop_first()[i] == g[i + 1]);
        }
        lemma_fold_a(v2, g.drop_first());
        assert(group_tokens(g).drop_first() =~= group_tokens(g.drop_first()));
        assert(opt_extend(v2.a, g.drop_first()) == opt_extend(v.a, g)) by {
            match v.a {
                Some(s) => {
                    assert(s.push(m) + g.drop_first() =~= s + g);
                },
                None => {
                    assert(seq![m] + g.drop_first() =~= g);
                    if g.drop_first().len() == 0 {
                        assert(seq![m] =~= g);
                    }
                },
            }
        }
    }
}

/// Folding the rendered tokens of an `mx` group appends its members.
pub proof fn lemma_fold_mx(v: SpfView, g: Seq<MechView<Seq<char>>>)
    requires
        forall|i: int| 0 <= i < g.len() ==> mx_wf(#[trigger] g[i]),
    ensures
        spec_fold(v, group_tokens(g)) == Ok::<SpfView, SpfErrView>(
            SpfView { mx: opt_extend(v.mx, g), ..v },
        ),
    decreases g.len(),
{
    if g.len() == 0 {
        assert(group_tokens(g) =~= Seq::<Seq<char>>::empty());
        assert((SpfView { mx: opt_extend(v.mx, g), ..v }) == v);
    } else {
        let m = g[0];
        let t = mech_text(m);
        assert(group_tokens(g)[0] == t);
        let v2 = SpfView { mx: opt_push(v.mx, m), ..v };
        assert(spec_step(v, t) == Ok::<SpfView, SpfErrView>(v2));
        assert forall|i: int| 0 <= i < g.drop_first().len() implies mx_wf(
            #[trigger] g.drop_first()[i],
        ) by {
            assert(g.drop_first()[i] == g[i + 1]);
        }
        lemma_fold_mx(v2, g.drop_first());
        assert(group_tokens(g).drop_first() =~= group_tokens(g.drop_first()));
        assert(opt_extend(v2.mx, g.drop_first()) == opt_extend(v.mx, g)) by {
            match v.mx {
                Some(s) => {
                    assert(s.push(m) + g.drop_first() =~= s + g);
                },
                None => {
                    assert(seq![m] + g.drop_first() =~= g);
                    if g.drop_first().len() == 0 {
                        assert(seq![m] =~= g);
                    }
                },
            }
        }
    }
}

/// Folding the rendered tokens of an include group appends its members.
pub proof fn lemma_fold_include(v: SpfView, g: Seq<MechView<Seq<char>>>)
    requires
        forall|i: int| 0 <= i < g.len() ==> include_wf(#[trigger] g[i]),
    ensures
        spec_fold(v, group_tokens(g)) == Ok::<SpfView, SpfErrView>(
            SpfView { includes: opt_extend(v.includes, g), ..v },
        ),
    decreases g.len(),
{
    if g.len() == 0 {
        assert(group_tokens(g) =~= Seq::<Seq<char>>::empty());
        assert((SpfView { includes: opt_extend(v.includes, g), ..v }) == v);
    } else {
        let m = g[0];
        let t = mech_text(m);
        assert(group_tokens(g)[0] == t);
        let v2 = SpfView { includes: opt_push(v.includes, m), ..v };
        assert(spec_step(v, t) == Ok::<SpfView, SpfErrView>(v2));
        assert forall|i: int| 0 <= i < g.drop_first().len() implies include_wf(
            #[trigger] g.drop_first()[i],
        ) by {
            assert(g.drop_first()[i] == g[i + 1]);
        }
        lemma_fold_include(v2, g.drop_first());
        assert(group_tokens(g).drop_first() =~= group_tokens(g.drop_first()));
        assert(opt_extend(v2.includes, g.drop_first()) == opt_extend(v.includes, g)) by {
            match v.includes {
                Some(s) => {
                    assert(s.push(m) + g.drop_first() =~= s + g);
                },
                None => {
                    assert(seq![m] + g.drop_first() =~= g);
                    if g.drop_first().len() == 0 {
                        assert(seq![m] =~= g);
                    }
                },
            }
        }
    }
}

/// Folding the rendered tokens of an exists group appends its members.
pub proof fn lemma_fold_exists(v: SpfView, g: Seq<MechView<Seq<char>>>)
    requires
        forall|i: int| 0 <= i < g.len() ==> exists_wf(#[trigger] g[i]),
    ensures
        spec_fold(v, group_tokens(g)) == Ok::<SpfView, SpfErrView>(
            SpfView { exists_list: opt_extend(v.exists_list, g), ..v },
        ),
    decreases g.len(),
{
    if g.len() == 0 {
        assert(group_tokens(g) =~= Seq::<Seq<char>>::empty());
        assert((SpfView { exists_list: opt_extend(v.exists_list, g), ..v }) == v);
    } else {
        let m = g[0];
        let t = mech_text(m);
        assert(group_tokens(g)[0] == t);
        let v2 = SpfView { exists_list: opt_push(v.exists_list, m), ..v };
        assert(spec_step(v, t) == Ok::<SpfView, SpfErrView>(v2)) by {
            assert(exists_mech(t) == m);
        }
        assert forall|i: int| 0 <= i < g.drop_first().len() implies exists_wf(
            #[trigger] g.drop_first()[i],
        ) by {
            assert(g.drop_first()[i] == g[i + 1]);
        }
        lemma_fold_exists(v2, g.drop_first());
        assert(group_tokens(g).drop_first() =~= group_tokens(g.drop_first()));
        assert(opt_extend(v2.exists_list, g.drop_first()) == opt_extend(v.exists_list, g)) by {
            match v.exists_list {
                Some(s) => {
                    assert(s.push(m) + g.drop_first() =~= s + g);
                },
                None => {
                    assert(seq![m] + g.drop_first() =~= g);
                    if g.drop_first().len() == 0 {
                        assert(seq![m] =~= g);
                    }
                },
            }
        }
    }
}

/// Folding the rendered tokens of an `ip4` group appends its members.
pub proof fn lemma_fold_ip4(v: SpfView, g: Seq<MechView<NetView>>)
    requires
        forall|i: int| 0 <= i < g.len() ==> ip_wf(#[trigger] g[i]) && g[i].kind == Kind::IpV4,
    ensures
        spec_fold(v, ip_group_tokens(g)) == Ok::<SpfView, SpfErrView>(
            SpfView { ip4: opt_extend(v.ip4, g), ..v },
        ),
    decreases g.len(),
{
    if g.len() == 0 {
        assert(ip_group_tokens(g) =~= Seq::<Seq<char>>::empty());
        assert((SpfView { ip4: opt_extend(v.ip4, g), ..v }) == v);
    } else {
        let m = g[0];
        let t = ip_mech_text(m);
        assert(ip_group_tokens(g)[0] == t);
        let v2 = SpfView { ip4: opt_push(v.ip4, m), ..v };
        assert(spec_step(v, t) == Ok::<SpfView, SpfErrView>(v2));
        assert forall|i: int| 0 <= i < g.drop_first().len() implies ip_wf(
            #[trigger] g.drop_first()[i],
        ) && g.drop_first()[i].kind == Kind::IpV4 by {
            assert(g.drop_first()[i] == g[i + 1]);
        }
        lemma_fold_ip4(v2, g.drop_first());
        assert(ip_group_tokens(g).drop_first() =~= ip_group_tokens(g.drop_first()));
        assert(opt_extend(v2.ip4, g.drop_first()) == opt_extend(v.ip4, g)) by {
            match v.ip4 {
                Some(s) => {
                    assert(s.push(m) + g.drop_first() =~= s + g);
                },
                None => {
                    assert(seq![m] + g.drop_first() =~= g);
                    if g.drop_first().len() == 0 {
                        assert(seq![m] =~= g);
                    }
                },
            }
        }
    }
}

/// Folding the rendered tokens of an `ip6` group appends its members.
pub proof fn lemma_fold_ip6(v: SpfView, g: Seq<MechView<NetView>>)
    requires
        forall|i: int| 0 <= i < g.len() ==> ip_wf(#[trigger] g[i]) && g[i].kind == Kind::IpV6,
    ensures
        spec_fold(v, ip_group_tokens(g)) == Ok::<SpfView, SpfErrView>(
            SpfView { ip6: opt_extend(v.ip6, g), ..v },
        ),
    decreases g.len(),
{
    if g.len() == 0 {
        assert(ip_group_tokens(g) =~= Seq::<Seq<char>>::empty());
        assert((SpfView { ip6: opt_extend(v.ip6, g), ..v }) == v);
    } else {
        let m = g[0];
        let t = ip_mech_text(m);
        assert(ip_group_tokens(g)[0] == t);
        let v2 = SpfView { ip6: opt_push(v.ip6, m), ..v };
        assert(spec_step(v, t) == Ok::<SpfView, SpfErrView>(v2));
        assert forall|i: int| 0 <= i < g.drop_first().len() implies ip_wf(
            #[trigger] g.drop_first()[i],
        ) && g.drop_first()[i].kind == Kind::IpV6 by {
            assert(g.drop_first()[i] == g[i + 1]);
        }
        lemma_fold_ip6(v2, g.drop_first());
        assert(ip_group_tokens(g).drop_first() =~= ip_group_tokens(g.drop_first()));
        assert(opt_extend(v2.ip6, g.drop_first()) == opt_extend(v.ip6, g)) by {
            match v.ip6 {
                Some(s) => {
                    assert(s.push(m) + g.drop_first() =~= s + g);
                },
                None => {
                    assert(seq![m] + g.drop_first() =~= g);
                    if g.drop_first().len() == 0 {
                        assert(seq![m] =~= g);
                    }
                },
            }
        }
    }
}

} // verus!

verus! {

/// The record that folding a rendered record's tokens into a fresh
/// record yields: the same version, groups, `ptr` and redirect; the
/// `all` slot survives only when no redirect is present, since the
/// builder then leaves it out of the text.
pub open spec fn reparsed_view(v: SpfView) -> SpfView {
    SpfView {
        source: Seq::empty(),
        version: v.version,
        from_src: false,
        redirect: v.redirect,
        is_redirected: v.is_redirected,
        a: v.a,
        mx: v.mx,
        includes: v.includes,
        ip4: v.ip4,
        ip6: v.ip6,
        ptr: v.ptr,
        exists_list: v.exists_list,
        all: if v.is_redirected {
            None
        } else {
            v.all
        },
        was_parsed: false,
        was_validated: false,
        is_valid: false,
        warnings: None,
    }
}

/// Folding the rendered tokens of a record in good standing into a fresh
/// record rebuilds it.
#[verifier::spinoff_prover]
#[verifier::rlimit(100)]
pub proof fn lemma_refold(v: SpfView)
    requires
        parsed_wf(v),
        nets_canonical(v),
        v.version.len() > 0,
    ensures
        spec_fold(empty_view(), record_tokens(v)) == Ok::<SpfView, SpfErrView>(reparsed_view(v)),
{
    let e0 = empty_view();
    let t0 = seq![v.version];
    let t1 = t0 + opt_group_tokens(v.a);
    let t2 = t1 + opt_group_tokens(v.mx);
    let t3 = t2 + opt_group_tokens(v.includes);
    let t4 = t3 + opt_ip_group_tokens(v.ip4);
    let t5 = t4 + opt_ip_group_tokens(v.ip6);
    let t6 = t5 + opt_group_tokens(v.exists_list);
    let t7 = t6 + opt_one_tokens(v.ptr);
    let t8 = t7 + (if v.is_redirected {
        opt_one_tokens(v.redirect)
    } else {
        Seq::<Seq<char>>::empty()
    });
    let t9 = t8 + (if !v.is_redirected {
        opt_one_tokens(v.all)
    } else {
        Seq::<Seq<char>>::empty()
    });
    assert(record_tokens(v) == t9);
    lemma_fold_single(e0, v.version);
    lemma_step_version(e0, v.version);
    let u0 = SpfView { version: v.version, ..e0 };
    assert(spec_fold(e0, t0) == Ok::<SpfView, SpfErrView>(u0));
    // a
    lemma_fold_append_split(e0, t0, opt_group_tokens(v.a));
    let u1 = SpfView { a: v.a, ..u0 };
    assert(spec_fold(e0, t1) == Ok::<SpfView, SpfErrView>(u1)) by {
        match v.a {
            Some(g) => {
                lemma_fold_a(u0, g);
                assert(opt_extend(u0.a, g) == Some(g));
            },
            None => {
                assert(spec_fold(u0, opt_group_tokens(v.a)) == Ok::<SpfView, SpfErrView>(u0));
                assert(u1 == u0);
            },
        }
    }
    // mx
    lemma_fold_append_split(e0, t1, opt_group_tokens(v.mx));
    let u2 = SpfView { mx: v.mx, ..u1 };
    assert(spec_fold(e0, t2) == Ok::<SpfView, SpfErrView>(u2)) by {
        match v.mx {
            Some(g) => {
                lemma_fold_mx(u1, g);
                assert(opt_extend(u1.mx, g) == Some(g));
            },
            None => {
                assert(spec_fold(u1, opt_group_tokens(v.mx)) == Ok::<SpfView, SpfErrView>(u1));
                assert(u2 == u1);
            },
        }
    }
    // include
    lemma_fold_append_split(e0, t2, opt_group_tokens(v.includes));
    let u3 = SpfView { includes: v.includes, ..u2 };
    assert(spec_fold(e0, t3) == Ok::<SpfView, SpfErrView>(u3)) by {
        match v.includes {
            Some(g) => {
                lemma_fold_include(u2, g);
                assert(opt_extend(u2.includes, g) == Some(g));
            },
            None => {
                assert(spec_fold(u2, opt_group_tokens(v.includes)) == Ok::<
                    SpfView,
                    SpfErrView,
                >(u2));
                assert(u3 == u2);
            },
        }
    }
    // ip4
    lemma_fold_append_split(e0, t3, opt_ip_group_tokens(v.ip4));
    let u4 = SpfView { ip4: v.ip4, ..u3 };
    assert(spec_fold(e0, t4) == Ok::<SpfView, SpfErrView>(u4)) by {
        match v.ip4 {
            Some(g) => {
                assert forall|i: int| 0 <= i < g.len() implies ip_wf(#[trigger] g[i]) && g[i].kind
                    == Kind::IpV4 by {
                    lemma_ip_classified(g[i]);
                }
                lemma_fold_ip4(u3, g);
                assert(opt_extend(u3.ip4, g) == Some(g));
            },
            None => {
                assert(spec_fold(u3, opt_ip_group_tokens(v.ip4)) == Ok::<SpfView, SpfErrView>(u3));
                assert(u4 == u3);
            },
        }
    }
    // ip6
    lemma_fold_append_split(e0, t4, opt_ip_group_tokens(v.ip6));
    let u5 = SpfView { ip6: v.ip6, ..u4 };
    assert(spec_fold(e0, t5) == Ok::<SpfView, SpfErrView>(u5)) by {
        match v.ip6 {
            Some(g) => {
                assert forall|i: int| 0 <= i < g.len() implies ip_wf(#[trigger] g[i]) && g[i].kind
                    == Kind::IpV6 by {
                    lemma_ip_classified(g[i]);
                }
                lemma_fold_ip6(u4, g);
                assert(opt_extend(u4.ip6, g) == Some(g));
            },
            None => {
                assert(spec_fold(u4, opt_ip_group_tokens(v.ip6)) == Ok::<SpfView, SpfErrView>(u4));
                assert(u5 == u4);
            },
        }
    }
    // exists
    lemma_fold_append_split(e0, t5, opt_group_tokens(v.exists_list));
    let u6 = SpfView { exists_list: v.exists_list, ..u5 };
    assert(spec_fold(e0, t6) == Ok::<SpfView, SpfErrView>(u6)) by {
        match v.exists_list {
            Some(g) => {
                lemma_fold_exists(u5, g);
                assert(opt_extend(u5.exists_list, g) == Some(g));
            },
            None => {
                assert(spec_fold(u5, opt_group_tokens(v.exists_list)) == Ok::<
                    SpfView,
                    SpfErrView,
                >(u5));
                assert(u6 == u5);
            },
        }
    }
    // ptr
    lemma_fold_append_split(e0, t6, opt_one_tokens(v.ptr));
    let u7 = SpfView { ptr: v.ptr, ..u6 };
    assert(spec_fold(e0, t7) == Ok::<SpfView, SpfErrView>(u7)) by {
        match v.ptr {
            Some(m) => {
                lemma_fold_single(u6, mech_text(m));
                lemma_step_ptr(u6, m);
            },
            None => {
                assert(spec_fold(u6, opt_one_tokens(v.ptr)) == Ok::<SpfView, SpfErrView>(u6));
                assert(u7 == u6);
            },
        }
    }
    // redirect
    lemma_fold_append_split(
        e0,
        t7,
        if v.is_redirected {
            opt_one_tokens(v.redirect)
        } else {
            Seq::<Seq<char>>::empty()
        },
    );
    let u8 = SpfView { redirect: v.redirect, is_redirected: v.is_redirected, ..u7 };
    assert(spec_fold(e0, t8) == Ok::<SpfView, SpfErrView>(u8)) by {
        if v.is_redirected {
            match v.redirect {
                Some(m) => {
                    lemma_fold_single(u7, mech_text(m));
                    lemma_step_redirect(u7, m);
                },
                None => {
                    assert(false);
                },
            }
        } else {
            assert(v.redirect is None);
            assert(spec_fold(u7, Seq::<Seq<char>>::empty()) == Ok::<SpfView, SpfErrView>(u7));
            assert(u8 == u7);
        }
    }
    // all
    lemma_fold_append_split(
        e0,
        t8,
        if !v.is_redirected {
            opt_one_tokens(v.all)
        } else {
            Seq::<Seq<char>>::empty()
        },
    );
    assert(spec_fold(e0, t9) == Ok::<SpfView, SpfErrView>(reparsed_view(v))) by {
        if !v.is_redirected {
            match v.all {
                Some(m) => {
                    lemma_fold_single(u8, mech_text(m));
                    lemma_step_all(u8, m);
                    assert((SpfView { all: Some(m), ..u8 }) == reparsed_view(v));
                },
                None => {
                    assert(spec_fold(u8, opt_one_tokens(v.all)) == Ok::<SpfView, SpfErrView>(u8));
                    assert(u8 == reparsed_view(v));
                },
            }
        } else {
            assert(spec_fold(u8, Seq::<Seq<char>>::empty()) == Ok::<SpfView, SpfErrView>(u8));
            assert(u8 == reparsed_view(v));
        }
    }
}

} // verus!

verus! {

/// A prefix of the left part is a prefix of the whole.
pub proof fn lemma_starts_concat(x: Seq<char>, y: Seq<char>, p: Seq<char>)
    requires
        seq_starts_with(x, p),
    ensures
        seq_starts_with(x + y, p),
{
    assert((x + y).subrange(0, p.len() as int) =~= x.subrange(0, p.len() as int));
}

/// Round trip: parsing the canonical text of a parsed record yields a
/// record with the same version tag and the very same mechanism groups,
/// in order — which is stronger than equality as multisets.  The `ptr`
/// and redirect slots also survive, and the `all` slot survives whenever
/// no redirect is present (with a redirect the builder leaves `all` out
/// of the text, so it cannot come back).  The premises exclude the
/// pathological cases: the stored networks must be in canonical form (as
/// every network a parse stores is), the version tag must begin with a
/// marker rather than merely containing one, and the canonical text must
/// fit the length ceiling.
#[verifier::spinoff_prover]
#[verifier::rlimit(100)]
pub proof fn lemma_round_trip(s: Seq<char>)
    ensures
        ({
            let p1 = spec_parse(s);
            (p1 is Ok && nets_canonical(p1->Ok_0) && (seq_starts_with(p1->Ok_0.version, "v=spf1"@)
                || seq_starts_with(p1->Ok_0.version, "spf2.0"@)) && record_text(p1->Ok_0).len()
                <= 255) ==> ({
                let v1 = p1->Ok_0;
                let p2 = spec_parse(record_text(v1));
                &&& p2 is Ok
                &&& p2->Ok_0.version == v1.version
                &&& p2->Ok_0.a == v1.a
                &&& p2->Ok_0.mx == v1.mx
                &&& p2->Ok_0.includes == v1.includes
                &&& p2->Ok_0.ip4 == v1.ip4
                &&& p2->Ok_0.ip6 == v1.ip6
                &&& p2->Ok_0.exists_list == v1.exists_list
                &&& p2->Ok_0.ptr == v1.ptr
                &&& p2->Ok_0.redirect == v1.redirect
                &&& p2->Ok_0.is_redirected == v1.is_redirected
                &&& !v1.is_redirected ==> p2->Ok_0.all == v1.all
            })
        }),
{
    reveal_strlit("v=spf1");
    reveal_strlit("spf2.0");
    let p1 = spec_parse(s);
    if p1 is Ok && nets_canonical(p1->Ok_0) && (seq_starts_with(p1->Ok_0.version, "v=spf1"@)
        || seq_starts_with(p1->Ok_0.version, "spf2.0"@)) && record_text(p1->Ok_0).len() <= 255 {
        let v1 = p1->Ok_0;
        lemma_parse_wf(s);
        assert(v1.version.len() > 0);
        lemma_record_tokens(v1);
        let t = record_text(v1);
        assert(seq_starts_with(t, "v=spf1"@) || seq_starts_with(t, "spf2.0"@)) by {
            let a1 = v1.version + opt_group_text(v1.a);
            let a2 = a1 + opt_group_text(v1.mx);
            let a3 = a2 + opt_group_text(v1.includes);
            let a4 = a3 + opt_ip_group_text(v1.ip4);
            let a5 = a4 + opt_ip_group_text(v1.ip6);
            let a6 = a5 + opt_group_text(v1.exists_list);
            let a7 = a6 + opt_one_text(v1.ptr);
            let a8 = a7 + (if v1.is_redirected {
                opt_one_text(v1.redirect)
            } else {
                Seq::<char>::empty()
            });
            if seq_starts_with(v1.version, "v=spf1"@) {
                lemma_starts_concat(v1.version, opt_group_text(v1.a), "v=spf1"@);
                lemma_starts_concat(a1, opt_group_text(v1.mx), "v=spf1"@);
                lemma_starts_concat(a2, opt_group_text(v1.includes), "v=spf1"@);
                lemma_starts_concat(a3, opt_ip_group_text(v1.ip4), "v=spf1"@);
                lemma_starts_concat(a4, opt_ip_group_text(v1.ip6), "v=spf1"@);
                lemma_starts_concat(a5, opt_group_text(v1.exists_list), "v=spf1"@);
                lemma_starts_concat(a6, opt_one_text(v1.ptr), "v=spf1"@);
                lemma_starts_concat(
                    a7,
                    if v1.is_redirected {
                        opt_one_text(v1.redirect)
                    } else {
                        Seq::<char>::empty()
                    },
                    "v=spf1"@,
                );
                lemma_starts_concat(
                    a8,
                    if !v1.is_redirected {
                        opt_one_text(v1.all)
                    } else {
                        Seq::<char>::empty()
                    },
                    "v=spf1"@,
                );
            } else {
                lemma_starts_concat(v1.version, opt_group_text(v1.a), "spf2.0"@);
                lemma_starts_concat(a1, opt_group_text(v1.mx), "spf2.0"@);
                lemma_starts_concat(a2, opt_group_text(v1.includes), "spf2.0"@);
                lemma_starts_concat(a3, opt_ip_group_text(v1.ip4), "spf2.0"@);
                lemma_starts_concat(a4, opt_ip_group_text(v1.ip6), "spf2.0"@);
                lemma_starts_concat(a5, opt_group_text(v1.exists_list), "spf2.0"@);
                lemma_starts_concat(a6, opt_one_text(v1.ptr), "spf2.0"@);
                lemma_starts_concat(
                    a7,
                    if v1.is_redirected {
                        opt_one_text(v1.redirect)
                    } else {
                        Seq::<char>::empty()
                    },
                    "spf2.0"@,
                );
                lemma_starts_concat(
                    a8,
                    if !v1.is_redirected {
                        opt_one_text(v1.all)
                    } else {
                        Seq::<char>::empty()
                    },
                    "spf2.0"@,
                );
            }
        }
        lemma_refold(v1);
        assert(spec_fold(empty_view(), spec_tokens(t)) == Ok::<SpfView, SpfErrView>(
            reparsed_view(v1),
        ));
        assert(spec_parse(t) == Ok::<SpfView, SpfErrView>(
            SpfView { was_parsed: true, is_valid: true, source: t, ..reparsed_view(v1) },
        ));
    }
}

} // verus!

verus! {

/// A line that begins with a version marker begins with a version
/// token: its first token contains the v1 literal or starts with the v2
/// prefix.
#[verifier::spinoff_prover]
#[verifier::rlimit(100)]
pub proof fn lemma_first_token_version(s: Seq<char>)
    requires
        seq_starts_with(s, "v=spf1"@) || seq_starts_with(s, "spf2.0"@),
    ensures
        spec_tokens(s).len() > 0,
        is_version_token(spec_tokens(s)[0]),
{
    reveal_strlit("v=spf1");
    reveal_strlit("spf2.0");
    let mk: Seq<char> = if seq_starts_with(s, "v=spf1"@) {
        "v=spf1"@
    } else {
        "spf2.0"@
    };
    assert(mk.len() == 6);
    assert forall|j: int| 0 <= j < 6 implies s[j] == mk[j] && !crate::helpers::is_space_char(
        s[j],
    ) by {
        assert(s.subrange(0, 6)[j] == s[j]);
    }
    crate::helpers::lemma_non_space_prefix(s);
    let k = crate::helpers::non_space_prefix_len(s);
    if k < 6 {
        assert(crate::helpers::is_space_char(s[k]));
        assert(false);
    }
    assert(!crate::helpers::is_space_char(s[0]));
    let tok0 = s.subrange(0, k);
    assert(spec_tokens(s)[0] == tok0);
    assert(tok0.subrange(0, 6) =~= mk);
    if seq_starts_with(s, "v=spf1"@) {
        assert(seq_contains(tok0, "v=spf1"@)) by {
            assert(tok0.subrange(0, 0 + "v=spf1"@.len() as int) == "v=spf1"@);
        }
    } else {
        assert(seq_starts_with(tok0, "spf2.0"@));
    }
}

} // verus!
