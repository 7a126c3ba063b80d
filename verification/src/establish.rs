use vstd::prelude::*;
use crate::errors::{Error, EstablishError};
use crate::ip::{ip_literal, is_ip_literal};
use crate::key::{clone_bytes, Target};

verus! {

/// A candidate transport address: a textual address literal and a port.
pub struct Addr {
    pub ip: Vec<u8>,
    pub port: u16,
}

/// Mathematical value of an `Addr`.
#[verifier::ext_equal]
pub struct AddrView {
    pub ip: Seq<u8>,
    pub port: u16,
}

impl View for Addr {
    type V = AddrView;

    open spec fn view(&self) -> AddrView {
        AddrView { ip: self.ip@, port: self.port }
    }
}

/// How candidate addresses for a destination are obtained: directly
/// from a literal host, or from the resolver.
pub enum AddressPlan {
    /// The host is an address literal; connect to it, skipping
    /// resolution.
    Direct { addr: Addr },
    /// The host is a name; resolve it, then apply the port to every
    /// resolved address.
    Resolve { host: Vec<u8>, port: u16 },
}

/// Mathematical value of an `AddressPlan`.
#[verifier::ext_equal]
pub enum PlanView {
    Direct { addr: AddrView },
    Resolve { host: Seq<u8>, port: u16 },
}

impl View for AddressPlan {
    type V = PlanView;

    open spec fn view(&self) -> PlanView {
        match self {
            AddressPlan::Direct { addr } => PlanView::Direct { addr: addr@ },
            AddressPlan::Resolve { host, port } => PlanView::Resolve { host: host@, port: *port },
        }
    }
}

/// The byte string with its leading `[` bytes removed.
pub open spec fn strip_leading(s: Seq<u8>) -> Seq<u8>
    decreases s.len(),
{
    if s.len() > 0 && s[0] == 91 {
        strip_leading(s.subrange(1, s.len() as int))
    } else {
        s
    }
}

/// The byte string with its trailing `]` bytes removed.
pub open spec fn strip_trailing(s: Seq<u8>) -> Seq<u8>
    decreases s.len(),
{
    if s.len() > 0 && s.last() == 93 {
        strip_trailing(s.drop_last())
    } else {
        s
    }
}

/// Bracket notation removed from a host: leading `[` and trailing `]`.
pub open spec fn spec_strip_brackets(s: Seq<u8>) -> Seq<u8> {
    strip_trailing(strip_leading(s))
}

proof fn lemma_strip_leading(s: Seq<u8>, i: int)
    requires
        0 <= i <= s.len(),
        forall|m: int| 0 <= m < i ==> s[m] == 91,
        i == s.len() || s[i] != 91,
    ensures
        strip_leading(s) == s.subrange(i, s.len() as int),
    decreases i,
{
    if i == 0 {
        assert(s.subrange(0, s.len() as int) =~= s);
    } else {
        let t = s.subrange(1, s.len() as int);
        lemma_strip_leading(t, i - 1);
        assert(t.subrange(i - 1, t.len() as int) =~= s.subrange(i, s.len() as int));
    }
}

proof fn lemma_strip_trailing(s: Seq<u8>, j: int)
    requires
        0 <= j <= s.len(),
        forall|m: int| j <= m < s.len() ==> s[m] == 93,
        j == 0 || s[j - 1] != 93,
    ensures
        strip_trailing(s) == s.subrange(0, j),
    decreases s.len() - j,
{
    if j == s.len() {
        assert(s.subrange(0, j) =~= s);
    } else {
        let t = s.drop_last();
        lemma_strip_trailing(t, j);
        assert(t.subrange(0, j) =~= s.subrange(0, j));
    }
}

/// Removes bracket notation from a host, as written around literal
/// IPv6 addresses in a target: every leading `[` and every trailing
/// `]`.
pub fn strip_brackets(host: &[u8]) -> (r: Vec<u8>)
    ensures
        r@ == spec_strip_brackets(host@),
{
    let n = host.len();
    let mut i: usize = 0;
    while i < n && host[i] == 91
        invariant
            i <= n == host@.len(),
            forall|m: int| 0 <= m < i ==> host@[m] == 91,
        decreases n - i,
    {
        i += 1;
    }
    proof {
        lemma_strip_leading(host@, i as int);
    }
    let ghost led = host@.subrange(i as int, host@.len() as int);
    let mut j: usize = n;
    while j > i && host[j - 1] == 93
        invariant
            i <= j <= n == host@.len(),
            forall|m: int| j <= m < n ==> host@[m] == 93,
        decreases j,
    {
        j -= 1;
    }
    proof {
        assert(forall|m: int| j - i <= m < led.len() ==> led[m] == host@[m + i]);
        lemma_strip_trailing(led, j - i);
        assert(led.subrange(0, j - i) =~= host@.subrange(i as int, j as int));
    }
    let mut r: Vec<u8> = Vec::new();
    let mut k: usize = i;
    while k < j
        invariant
            i <= k <= j <= host@.len(),
            r@ == host@.subrange(i as int, k as int),
        decreases j - k,
    {
        r.push(host[k]);
        proof {
            assert(r@ =~= host@.subrange(i as int, k + 1 as int));
        }
        k += 1;
    }
    r
}

/// The port used for a destination when the target names none.
pub open spec fn default_port() -> u16 {
    443
}

/// The address plan a target yields: its host with bracket notation
/// removed, its port (or the default), and the direct path iff the
/// host is an address literal.
pub open spec fn spec_plan(t: crate::key::TargetView) -> Result<PlanView, Error> {
    match t.host {
        None => Err(Error::Target),
        Some(h) => {
            let hs = spec_strip_brackets(h);
            let p = match t.port {
                Some(p) => p,
                None => default_port(),
            };
            if is_ip_literal(hs) {
                Ok(PlanView::Direct { addr: AddrView { ip: hs, port: p } })
            } else {
                Ok(PlanView::Resolve { host: hs, port: p })
            }
        }
    }
}

/// Decides how to obtain candidate addresses for a target: fails iff
/// the target has no host; otherwise strips bracket notation, applies
/// the default port where none is given, and picks the direct path
/// exactly when the host is an address literal.
pub fn plan_addresses(t: &Target) -> (r: Result<AddressPlan, Error>)
    ensures
        match r {
            Ok(p) => spec_plan(t@) == Ok::<PlanView, Error>(p@),
            Err(e) => spec_plan(t@) == Err::<PlanView, Error>(e),
        },
{
    match &t.host {
        None => Err(Error::Target),
        Some(h) => {
            let hs = strip_brackets(h.as_slice());
            let p = match t.port {
                Some(p) => p,
                None => 443,
            };
            if ip_literal(hs.as_slice()) {
                let r = AddressPlan::Direct { addr: Addr { ip: hs, port: p } };
                proof {
                    assert(spec_plan(t@) matches Ok(pv) && pv =~= r@);
                }
                Ok(r)
            } else {
                let r = AddressPlan::Resolve { host: hs, port: p };
                proof {
                    assert(spec_plan(t@) matches Ok(pv) && pv =~= r@);
                }
                Ok(r)
            }
        }
    }
}

/// Literal-IP fast path: a target whose stripped host is an address
/// literal always plans a direct connection, so the resolver is never
/// consulted for it.
pub proof fn lemma_literal_ip_fast_path(t: crate::key::TargetView)
    requires
        t.host matches Some(h) && is_ip_literal(spec_strip_brackets(h)),
    ensures
        (spec_plan(t) matches Ok(p) && p is Direct),
{
}

/// Applies the destination port to every resolved address, keeping
/// their order.
pub fn apply_port(addrs: Vec<Addr>, port: u16) -> (r: Vec<Addr>)
    ensures
        r@.len() == addrs@.len(),
        forall|i: int|
            0 <= i < addrs@.len() ==> #[trigger] r@[i]@ == (AddrView {
                ip: addrs@[i]@.ip,
                port: port,
            }),
{
    let mut r: Vec<Addr> = Vec::new();
    let mut addrs = addrs;
    let mut k: usize = 0;
    let n = addrs.len();
    while k < n
        invariant
            k <= n == addrs@.len(),
            r@.len() == k,
            forall|i: int|
                0 <= i < k ==> #[trigger] r@[i]@ == (AddrView { ip: addrs@[i]@.ip, port: port }),
        decreases n - k,
    {
        let ip = clone_bytes(&addrs[k].ip);
        r.push(Addr { ip, port });
        k += 1;
    }
    r
}

/// The local address a connector's endpoint binds when none is
/// requested: the unspecified IPv6 address.
pub open spec fn default_local_ip() -> Seq<u8> {
    seq![58u8, 58u8]
}

/// The QUIC-family backend connector's decision state: where its
/// endpoint binds, and the protocol options applied at handshake.
/// The transport client built from this performs the handshakes; the
/// address policy is decided here.
pub struct H3S2nQuicConnector {
    /// The local bind address.
    pub local: Addr,
    /// Protocol options applied to new connections when set.
    pub client_config: crate::client::H3ClientConfig,
}

impl H3S2nQuicConnector {
    /// A connector bound to the requested local address and port;
    /// an unset address means the unspecified IPv6 address, an unset
    /// port means an ephemeral one.
    pub fn new(
        local_ip: Option<Vec<u8>>,
        local_port: Option<u16>,
        client_config: crate::client::H3ClientConfig,
    ) -> (r: H3S2nQuicConnector)
        ensures
            r.local@.port == (match local_port {
                Some(p) => p,
                None => 0u16,
            }),
            r.local@.ip == (match local_ip {
                Some(ip) => ip@,
                None => default_local_ip(),
            }),
            r.client_config == client_config,
    {
        let port = match local_port {
            Some(p) => p,
            None => 0,
        };
        let ip = match local_ip {
            Some(ip) => ip,
            None => {
                let mut v: Vec<u8> = Vec::new();
                v.push(58);
                v.push(58);
                proof {
                    assert(v@ =~= default_local_ip());
                }
                v
            }
        };
        H3S2nQuicConnector { local: Addr { ip, port }, client_config }
    }

    /// The address policy for one destination: the decision part of
    /// connecting to it. Fails iff the target has no host; otherwise
    /// the plan gives the bracket-stripped host, the effective port,
    /// and whether resolution is skipped.
    pub fn connect_dest(&self, dest: &Target) -> (r: Result<AddressPlan, Error>)
        ensures
            match r {
                Ok(p) => spec_plan(dest@) == Ok::<PlanView, Error>(p@),
                Err(e) => spec_plan(dest@) == Err::<PlanView, Error>(e),
            },
    {
        plan_addresses(dest)
    }
}

/// The outcome of one transport handshake attempt against one
/// candidate address, as reported by the transport backend.
#[derive(Clone, Copy, PartialEq, Eq, Structural, Debug)]
pub enum Attempt {
    /// The handshake succeeded; `conn` identifies the live connection.
    Connected { conn: u64 },
    /// The handshake failed with the backend's error code.
    Failed { code: u64 },
}

/// The result of trying candidate addresses strictly in order: the
/// first success wins; if every attempt fails the last failure is
/// kept; an empty candidate sequence yields `NoAddresses`.
pub open spec fn spec_fallback(atts: Seq<Attempt>) -> Result<u64, EstablishError>
    decreases atts.len(),
{
    if atts.len() == 0 {
        Err(EstablishError::NoAddresses)
    } else {
        match atts[0] {
            Attempt::Connected { conn } => Ok(conn),
            Attempt::Failed { code } => {
                let rest = spec_fallback(atts.subrange(1, atts.len() as int));
                if rest == Err::<u64, EstablishError>(EstablishError::NoAddresses) {
                    Err(EstablishError::Handshake { code })
                } else {
                    rest
                }
            }
        }
    }
}

fn fallback_from(atts: &Vec<Attempt>, i: usize) -> (r: Result<u64, EstablishError>)
    requires
        i <= atts@.len(),
    ensures
        r == spec_fallback(atts@.subrange(i as int, atts@.len() as int)),
    decreases atts@.len() - i,
{
    let ghost sub = atts@.subrange(i as int, atts@.len() as int);
    if i == atts.len() {
        proof {
            assert(sub =~= Seq::<Attempt>::empty());
        }
        Err(EstablishError::NoAddresses)
    } else {
        proof {
            assert(sub[0] == atts@[i as int]);
        }
        match atts[i] {
            Attempt::Connected { conn } => Ok(conn),
            Attempt::Failed { code } => {
                let rest = fallback_from(atts, i + 1);
                proof {
                    assert(sub.subrange(1, sub.len() as int) =~= atts@.subrange(
                        i + 1 as int,
                        atts@.len() as int,
                    ));
                }
                match rest {
                    Err(EstablishError::NoAddresses) => Err(
                        EstablishError::Handshake { code },
                    ),
                    other => other,
                }
            }
        }
    }
}

/// Folds the outcomes of the sequential handshake attempts into the
/// establishment result: first success wins, else the last failure,
/// else `NoAddresses`.
pub fn resolve_attempts(atts: &Vec<Attempt>) -> (r: Result<u64, EstablishError>)
    ensures
        r == spec_fallback(atts@),
{
    let r = fallback_from(atts, 0);
    proof {
        assert(atts@.subrange(0, atts@.len() as int) =~= atts@);
    }
    r
}

/// Address fallback: if every attempt before `i` failed and attempt
/// `i` connected, the establishment result is that connection.
pub proof fn lemma_first_success_wins(atts: Seq<Attempt>, i: int)
    requires
        0 <= i < atts.len(),
        atts[i] is Connected,
        forall|j: int| 0 <= j < i ==> atts[j] is Failed,
    ensures
        atts[i] matches Attempt::Connected { conn } && spec_fallback(atts) == Ok::<
            u64,
            EstablishError,
        >(conn),
    decreases i,
{
    if i == 0 {
    } else {
        let tail = atts.subrange(1, atts.len() as int);
        lemma_first_success_wins(tail, i - 1);
    }
}

/// Address exhaustion: if every attempt failed, establishment fails
/// with the last attempt's handshake error.
pub proof fn lemma_exhaustion(atts: Seq<Attempt>)
    requires
        atts.len() > 0,
        forall|j: int| 0 <= j < atts.len() ==> atts[j] is Failed,
    ensures
        atts.last() matches Attempt::Failed { code } && spec_fallback(atts) == Err::<
            u64,
            EstablishError,
        >(EstablishError::Handshake { code }),
    decreases atts.len(),
{
    if atts.len() == 1 {
        assert(atts.subrange(1, 1) =~= Seq::<Attempt>::empty());
    } else {
        let tail = atts.subrange(1, atts.len() as int);
        lemma_exhaustion(tail);
        assert(tail.last() == atts.last());
    }
}

/// Running record of the sequential address attempts: the code of the
/// last failed handshake, if any attempt failed yet.
pub struct Establishment {
    pub last_err: Option<u64>,
}

impl Establishment {
    /// Starts an establishment with no attempt recorded.
    pub fn begin() -> (r: Establishment)
        ensures
            r.last_err is None,
    {
        Establishment { last_err: None }
    }

    /// Records one failed handshake; only the last failure is kept.
    pub fn note_failure(&mut self, code: u64)
        ensures
            final(self).last_err == Some(code),
    {
        self.last_err = Some(code);
    }

    /// The error reported when every candidate address has been tried
    /// without success: the last handshake failure, or `NoAddresses`
    /// when nothing was ever attempted.
    pub fn conclude(&self) -> (r: EstablishError)
        ensures
            match self.last_err {
                Some(code) => r == EstablishError::Handshake { code },
                None => r == EstablishError::NoAddresses,
            },
    {
        match self.last_err {
            Some(code) => EstablishError::Handshake { code },
            None => EstablishError::NoAddresses,
        }
    }
}

} // verus!
