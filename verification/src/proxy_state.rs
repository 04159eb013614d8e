//! The broker pool: which brokers have a tunnel, and on which public port.

use vstd::prelude::*;

verus! {

/// A broker address: a private host and port, as the cluster advertises it.
#[derive(Debug)]
pub struct Url {
    /// The broker's host on the private network.
    pub host: String,
    /// The broker's port.
    pub port: u16,
}

impl View for Url {
    type V = (Seq<char>, u16);

    open spec fn view(&self) -> (Seq<char>, u16) {
        (self.host@, self.port)
    }
}

impl Url {
    /// Create a new Url.
    pub fn new(host: String, port: u16) -> (u: Url)
        ensures
            u@ == (host@, port),
    {
        Url { host, port }
    }
}

impl Clone for Url {
    fn clone(&self) -> (res: Url)
        ensures
            res@ == self@,
    {
        Url { host: self.host.clone(), port: self.port }
    }
}

impl PartialEq for Url {
    fn eq(&self, other: &Url) -> bool {
        self.host == other.host && self.port == other.port
    }
}

impl vstd::std_specs::cmp::PartialEqSpecImpl for Url {
    open spec fn obeys_eq_spec() -> bool {
        true
    }

    open spec fn eq_spec(&self, other: &Url) -> bool {
        self@ == other@
    }
}

/// One pool entry: a broker and the public port of its tunnel.
struct ConnEntry {
    url: Url,
    port: u16,
}

/// The first port recorded for a key, scanning from the front.
pub open spec fn lookup_port(s: Seq<((Seq<char>, u16), u16)>, k: (Seq<char>, u16)) -> Option<u16>
    decreases s.len(),
{
    if s.len() == 0 {
        None
    } else if s[0].0 == k {
        Some(s[0].1)
    } else {
        lookup_port(s.drop_first(), k)
    }
}

/// The pool shared by all flows of one agent: a mapping from broker
/// address to the public port of that broker's tunnel, plus the optional
/// shared secret for the control-channel handshake.
pub struct ProxyState {
    connections: Vec<ConnEntry>,
    secret: Option<String>,
}

impl ProxyState {
    /// The recorded (broker, public port) pairs, oldest first.
    pub closed spec fn entries(self) -> Seq<((Seq<char>, u16), u16)> {
        self.connections@.map(|i: int, e: ConnEntry| (e.url@, e.port))
    }

    /// Whether the pool has an entry for this broker.
    pub open spec fn spec_contains(self, k: (Seq<char>, u16)) -> bool {
        lookup_port(self.entries(), k) is Some
    }

    /// The public port recorded for this broker, if any.
    pub open spec fn spec_port(self, k: (Seq<char>, u16)) -> Option<u16> {
        lookup_port(self.entries(), k)
    }

    /// The configured shared secret.
    pub closed spec fn spec_secret(self) -> Option<Seq<char>> {
        match self.secret {
            Some(s) => Some(s@),
            None => None,
        }
    }

    /// Pool well-formedness: every broker has at most one entry, and no
    /// entry records port 0.
    pub open spec fn wf(self) -> bool {
        &&& forall|i: int, j: int|
            0 <= i < j < self.entries().len() ==> self.entries()[i].0 != self.entries()[j].0
        &&& forall|i: int| 0 <= i < self.entries().len() ==> #[trigger] self.entries()[i].1 != 0
    }

    /// Create a new ProxyState with no tunnels yet.
    pub fn new(secret: Option<String>) -> (s: ProxyState)
        ensures
            s.entries() =~= Seq::<((Seq<char>, u16), u16)>::empty(),
            s.spec_secret() == match secret {
                Some(sec) => Some::<Seq<char>>(sec@),
                None => None::<Seq<char>>,
            },
            s.wf(),
    {
        ProxyState { connections: Vec::new(), secret }
    }

    /// Check if a broker is already in the pool.
    pub fn contains_broker(&self, broker_local_url: Url) -> (r: bool)
        ensures
            r == self.spec_contains(broker_local_url@),
    {
        self.get_remote_port(&broker_local_url).is_some()
    }

    /// Get the public port recorded for a broker, or `None` for a broker
    /// the pool has never seen.
    pub fn get_remote_port(&self, url: &Url) -> (r: Option<u16>)
        ensures
            r == self.spec_port(url@),
    {
        let n = self.connections.len();
        proof {
            assert(self.entries().skip(0) =~= self.entries());
        }
        for i in 0..n
            invariant
                n == self.connections.len(),
                lookup_port(self.entries(), url@) == lookup_port(self.entries().skip(i as int), url@),
        {
            proof {
                lemma_lookup_step(self.entries(), url@, i as int);
            }
            if self.connections[i].url == *url {
                return Some(self.connections[i].port);
            }
        }
        None
    }

    /// Record a tunnel for a broker.  Idempotent: if the broker already has
    /// an entry, the pool is unchanged and the first port wins.  Returns
    /// whether a new entry was added.
    pub fn insert_broker(&mut self, broker_local_url: Url, port: u16) -> (added: bool)
        requires
            port != 0,
        ensures
            added == !old(self).spec_contains(broker_local_url@),
            old(self).spec_contains(broker_local_url@) ==> final(self).entries()
                == old(self).entries(),
            !old(self).spec_contains(broker_local_url@) ==> final(self).entries()
                =~= old(self).entries().push((broker_local_url@, port)),
            old(self).wf() ==> final(self).wf(),
            final(self).spec_secret() == old(self).spec_secret(),
            final(self).spec_port(broker_local_url@) is Some,
    {
        if self.get_remote_port(&broker_local_url).is_some() {
            false
        } else {
            let ghost pre = self.entries();
            let ghost key = broker_local_url@;
            self.connections.push(ConnEntry { url: broker_local_url, port });
            proof {
                assert(self.entries() =~= pre.push((key, port)));
                lemma_lookup_push(pre, key, port);
                if old(self).wf() {
                    assert forall|i: int, j: int|
                        0 <= i < j < self.entries().len() implies self.entries()[i].0
                        != self.entries()[j].0 by {
                        if j < pre.len() {
                        } else {
                            assert(self.entries()[j].0 == key);
                            lemma_lookup_found(pre, i);
                        }
                    }
                }
            }
            true
        }
    }
}

/// Scanning past a non-matching entry does not change the lookup result.
proof fn lemma_lookup_step(s: Seq<((Seq<char>, u16), u16)>, k: (Seq<char>, u16), i: int)
    requires
        0 <= i < s.len(),
    ensures
        s[i].0 == k ==> lookup_port(s.skip(i), k) == Some(s[i].1),
        s[i].0 != k ==> lookup_port(s.skip(i), k) == lookup_port(s.skip(i + 1), k),
    decreases s.len(),
{
    assert(s.skip(i)[0] == s[i]);
    if s[i].0 != k {
        assert(s.skip(i).drop_first() =~= s.skip(i + 1));
    }
}

/// Appending an entry only affects the lookup of its own key, and only if
/// that key was absent.
proof fn lemma_lookup_push(s: Seq<((Seq<char>, u16), u16)>, k: (Seq<char>, u16), p: u16)
    ensures
        lookup_port(s, k) is Some ==> lookup_port(s.push((k, p)), k) == lookup_port(s, k),
        lookup_port(s, k) is None ==> lookup_port(s.push((k, p)), k) == Some(p),
    decreases s.len(),
{
    if s.len() == 0 {
        assert(s.push((k, p))[0] == (k, p));
    } else {
        assert(s.push((k, p))[0] == s[0]);
        if s[0].0 != k {
            assert(s.push((k, p)).drop_first() =~= s.drop_first().push((k, p)));
            lemma_lookup_push(s.drop_first(), k, p);
        }
    }
}

/// A key that occurs at some index is found by the lookup.
proof fn lemma_lookup_found(s: Seq<((Seq<char>, u16), u16)>, i: int)
    requires
        0 <= i < s.len(),
    ensures
        lookup_port(s, s[i].0) is Some,
    decreases s.len(),
{
    if s[0].0 != s[i].0 {
        assert(s.drop_first()[i - 1] == s[i]);
        lemma_lookup_found(s.drop_first(), i - 1);
    }
}

/// How many entries of the pool carry a given broker key.
pub open spec fn key_count(s: Seq<((Seq<char>, u16), u16)>, k: (Seq<char>, u16)) -> nat {
    s.filter(|e: ((Seq<char>, u16), u16)| e.0 == k).len()
}

/// Dedup: a well-formed pool holds at most one entry for any broker, no
/// matter how the entries were interleaved into it.
pub proof fn lemma_broker_dedup(s: ProxyState, k: (Seq<char>, u16))
    requires
        s.wf(),
    ensures
        key_count(s.entries(), k) <= 1,
{
    lemma_distinct_key_count(s.entries(), k);
}

/// On a sequence of pairwise-distinct keys, any key is counted at most once.
proof fn lemma_distinct_key_count(s: Seq<((Seq<char>, u16), u16)>, k: (Seq<char>, u16))
    requires
        forall|i: int, j: int| 0 <= i < j < s.len() ==> s[i].0 != s[j].0,
    ensures
        key_count(s, k) <= 1,
        key_count(s, k) == 1 ==> exists|i: int| 0 <= i < s.len() && s[i].0 == k,
    decreases s.len(),
{
    reveal(Seq::filter);
    if s.len() > 0 {
        let pre = s.drop_last();
        assert(forall|i: int, j: int| 0 <= i < j < pre.len() ==> pre[i].0 != pre[j].0);
        lemma_distinct_key_count(pre, k);
        if s.last().0 == k {
            if key_count(pre, k) == 1 {
                let i = choose|i: int| 0 <= i < pre.len() && pre[i].0 == k;
                assert(s[i].0 == k);
                assert(s[i].0 != s[s.len() - 1].0);
            }
        } else {
            if key_count(s, k) == 1 {
                let i = choose|i: int| 0 <= i < pre.len() && pre[i].0 == k;
                assert(s[i] == pre[i]);
            }
        }
    }
}

} // verus!
