use vstd::prelude::*;
use crate::errors::Error;
use crate::bytes_eq;

verus! {

/// What the pooling logic reads from a request target: the scheme, the
/// optional host, the optional port, and the rest of the target (path,
/// query), which the pool must ignore. Components are byte strings as
/// they appear in the target.
pub struct Target {
    pub scheme: Vec<u8>,
    pub host: Option<Vec<u8>>,
    pub port: Option<u16>,
    pub path_and_query: Vec<u8>,
}

/// Mathematical value of a `Target`.
#[verifier::ext_equal]
pub struct TargetView {
    pub scheme: Seq<u8>,
    pub host: Option<Seq<u8>>,
    pub port: Option<u16>,
    pub path_and_query: Seq<u8>,
}

impl View for Target {
    type V = TargetView;

    open spec fn view(&self) -> TargetView {
        TargetView {
            scheme: self.scheme@,
            host: match self.host {
                Some(h) => Some(h@),
                None => None,
            },
            port: self.port,
            path_and_query: self.path_and_query@,
        }
    }
}

/// Normalized identity of a pooled connection: scheme + host + port.
/// Two requests with equal keys may share a connection; keys are
/// compared by value.
#[derive(Debug)]
pub struct Key {
    pub scheme: Vec<u8>,
    pub host: Vec<u8>,
    pub port: Option<u16>,
}

/// Mathematical value of a `Key`.
#[verifier::ext_equal]
pub struct KeyView {
    pub scheme: Seq<u8>,
    pub host: Seq<u8>,
    pub port: Option<u16>,
}

impl View for Key {
    type V = KeyView;

    open spec fn view(&self) -> KeyView {
        KeyView { scheme: self.scheme@, host: self.host@, port: self.port }
    }
}

impl Key {
    /// Value equality of keys.
    pub fn key_eq(&self, other: &Key) -> (r: bool)
        ensures
            r == (self@ == other@),
    {
        let same_port: bool = match (self.port, other.port) {
            (Some(a), Some(b)) => a == b,
            (None, None) => true,
            _ => false,
        };
        let r = same_port && bytes_eq(self.scheme.as_slice(), other.scheme.as_slice())
            && bytes_eq(self.host.as_slice(), other.host.as_slice());
        proof {
            if r {
                assert(self@ =~= other@);
            }
        }
        r
    }

    /// Clones a key.
    pub fn clone_key(&self) -> (r: Key)
        ensures
            r@ == self@,
    {
        let r = Key {
            scheme: clone_bytes(&self.scheme),
            host: clone_bytes(&self.host),
            port: self.port,
        };
        proof {
            assert(r@ =~= self@);
        }
        r
    }
}

/// Copies a byte string.
pub fn clone_bytes(v: &Vec<u8>) -> (r: Vec<u8>)
    ensures
        r@ == v@,
{
    let mut r: Vec<u8> = Vec::new();
    let mut i: usize = 0;
    while i < v.len()
        invariant
            i <= v.len(),
            r@ == v@.subrange(0, i as int),
        decreases v.len() - i,
    {
        r.push(v[i]);
        proof {
            assert(r@ =~= v@.subrange(0, i + 1 as int));
        }
        i += 1;
    }
    proof {
        assert(r@ =~= v@);
    }
    r
}

/// The key a target derives, if it has a host.
pub open spec fn spec_extract_domain(t: TargetView) -> Result<KeyView, Error> {
    match t.host {
        Some(h) => Ok(KeyView { scheme: t.scheme, host: h, port: t.port }),
        None => Err(Error::Target),
    }
}

/// Derives the destination key of a target: its scheme, host and port,
/// ignoring path and query. Fails with `Error::Target` iff the target
/// has no host.
pub fn extract_domain(t: &Target) -> (r: Result<Key, Error>)
    ensures
        match r {
            Ok(k) => spec_extract_domain(t@) == Ok::<KeyView, Error>(k@),
            Err(e) => spec_extract_domain(t@) == Err::<KeyView, Error>(e),
        },
{
    match &t.host {
        Some(h) => {
            let k = Key {
                scheme: clone_bytes(&t.scheme),
                host: clone_bytes(h),
                port: t.port,
            };
            proof {
                assert(spec_extract_domain(t@) matches Ok(kv) && kv =~= k@);
            }
            Ok(k)
        }
        None => Err(Error::Target),
    }
}

/// Key equivalence: two targets that agree on scheme, host and port
/// derive equal keys, whatever their paths and queries; and two targets
/// with hosts that differ in port derive distinct keys.
pub proof fn lemma_key_equivalence(t1: TargetView, t2: TargetView)
    ensures
        (t1.scheme == t2.scheme && t1.host == t2.host && t1.port == t2.port)
            ==> spec_extract_domain(t1) == spec_extract_domain(t2),
        (t1.host is Some && t2.host is Some && t1.port != t2.port)
            ==> spec_extract_domain(t1) != spec_extract_domain(t2),
{
}

} // verus!
