use vstd::prelude::*;
use vstd::string::*;

verus! {

/// A set of host names. The hosts are kept in insertion order and no host
/// name occurs twice.
pub struct HostSet {
    hosts: Vec<String>,
}

/// The names held by `hosts`, one per element, in order.
pub open spec fn host_names(hosts: Seq<String>) -> Seq<Seq<char>> {
    hosts.map_values(|s: String| s@)
}

impl View for HostSet {
    type V = Set<Seq<char>>;

    closed spec fn view(&self) -> Set<Seq<char>> {
        host_names(self.hosts@).to_set()
    }
}

impl HostSet {
    /// No host name occurs twice.
    pub closed spec fn wf(&self) -> bool {
        forall|i: int, j: int|
            0 <= i < j < self.hosts@.len() ==> #[trigger] self.hosts@[i]@ != #[trigger] self.hosts@[j]@
    }

    /// The empty set.
    pub fn new() -> (r: HostSet)
        ensures
            r.wf(),
            r@ == Set::<Seq<char>>::empty(),
    {
        let r = HostSet { hosts: Vec::new() };
        assert(host_names(r.hosts@) =~= Seq::<Seq<char>>::empty());
        assert(r@ =~= Set::<Seq<char>>::empty());
        r
    }

    /// Whether `host` is in the set.
    pub fn contains(&self, host: &String) -> (r: bool)
        ensures
            r == self@.contains(host@),
    {
        let n = self.hosts.len();
        let ghost names = host_names(self.hosts@);
        let mut i: usize = 0;
        while i < n
            invariant
                n == self.hosts@.len(),
                names == host_names(self.hosts@),
                0 <= i <= n,
                forall|j: int| 0 <= j < i ==> names[j] != host@,
            decreases n - i,
        {
            if self.hosts[i] == *host {
                assert(names[i as int] == host@);
                assert(names.contains(host@));
                return true;
            }
            i = i + 1;
        }
        assert(!names.contains(host@));
        false
    }

    /// Adds `host`; the result tells whether it was not there before.
    pub fn insert(&mut self, host: String) -> (r: bool)
        requires
            old(self).wf(),
        ensures
            final(self).wf(),
            final(self)@ == old(self)@.insert(host@),
            r == !old(self)@.contains(host@),
    {
        if self.contains(&host) {
            assert(self@.insert(host@) =~= self@);
            false
        } else {
            let ghost before = self.hosts@;
            self.hosts.push(host);
            proof {
                assert(host_names(self.hosts@) =~= host_names(before).push(host@));
                let now = host_names(self.hosts@);
                let was = host_names(before);
                assert forall|a: Seq<char>| now.contains(a) <==> (was.contains(a) || a == host@) by {
                    if now.contains(a) {
                        let k = choose|k: int| 0 <= k < now.len() && now[k] == a;
                        if k < was.len() {
                            assert(was[k] == a);
                        }
                    }
                    if was.contains(a) {
                        let k = choose|k: int| 0 <= k < was.len() && was[k] == a;
                        assert(now[k] == a);
                    }
                    if a == host@ {
                        assert(now[now.len() - 1] == a);
                    }
                }
                assert(now.to_set() =~= was.to_set().insert(host@));
                assert forall|i: int, j: int|
                    0 <= i < j < self.hosts@.len() implies #[trigger] self.hosts@[i]@
                    != #[trigger] self.hosts@[j]@ by {
                    if j == self.hosts@.len() - 1 {
                        assert(host_names(before)[i] == self.hosts@[i]@);
                        assert(host_names(before).contains(self.hosts@[i]@));
                    }
                }
            }
            true
        }
    }
}

/// The hosts known to be broken, which the workload leaves out.
pub fn curate_broken_records() -> (r: HostSet)
    ensures
        r.wf(),
        r@ == Set::<Seq<char>>::empty().insert("arienh4.net.nyud.net"@),
{
    let mut broken_urls = HostSet::new();
    broken_urls.insert(String::from_str("arienh4.net.nyud.net"));
    broken_urls
}

} // verus!
