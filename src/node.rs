use vstd::prelude::*;

use crate::encoding::str_eq;

verus! {

/// A known peer.
#[derive(Clone, Debug)]
pub struct Node {
    pub addr: String,
}

impl Node {
    pub fn get_addr(&self) -> (r: String)
        ensures
            r@ == self.addr@,
    {
        self.addr.clone()
    }
}

/// The values of a sequence of peers: their addresses.
pub open spec fn addrs_view(s: Seq<Node>) -> Seq<Seq<char>> {
    s.map_values(|n: Node| n.addr@)
}

/// The known peers, without repeats, in the order they became known.
pub struct Nodes {
    pub inner: Vec<Node>,
}

impl Nodes {
    pub open spec fn addrs(&self) -> Seq<Seq<char>> {
        addrs_view(self.inner@)
    }

    /// No address is listed twice.
    pub open spec fn wf(&self) -> bool {
        self.addrs().no_duplicates()
    }

    /// An empty set.
    pub fn new() -> (r: Nodes)
        ensures
            r.wf(),
            r.addrs().len() == 0,
    {
        let r = Nodes { inner: Vec::new() };
        assert(r.addrs() =~= Seq::<Seq<char>>::empty());
        r
    }

    /// The peers, in order.
    pub fn get_nodes(&self) -> (r: Vec<Node>)
        ensures
            addrs_view(r@) == self.addrs(),
    {
        let mut out: Vec<Node> = Vec::new();
        let mut i: usize = 0;
        while i < self.inner.len()
            invariant
                i <= self.inner@.len(),
                out@.len() == i,
                forall|k: int| 0 <= k < i ==> (#[trigger] out@[k]).addr@ == self.inner@[k].addr@,
            decreases self.inner@.len() - i,
        {
            out.push(Node { addr: self.inner[i].addr.clone() });
            i = i + 1;
        }
        assert(addrs_view(out@) =~= self.addrs());
        out
    }

    fn position(&self, addr: &str) -> (r: Option<usize>)
        ensures
            r is None <==> !self.addrs().contains(addr@),
            r matches Some(i) ==> i < self.addrs().len() && self.addrs()[i as int] == addr@,
    {
        let mut i: usize = 0;
        while i < self.inner.len()
            invariant
                i <= self.inner@.len(),
                forall|k: int| 0 <= k < i ==> (#[trigger] self.addrs()[k]) != addr@,
            decreases self.inner@.len() - i,
        {
            if str_eq(self.inner[i].addr.as_str(), addr) {
                assert(self.addrs()[i as int] == addr@);
                assert(self.addrs().contains(addr@));
                return Some(i);
            }
            i = i + 1;
        }
        None
    }

    /// Adds `addr` unless it is known already.
    pub fn add_node(&mut self, addr: String)
        requires
            old(self).wf(),
        ensures
            final(self).wf(),
            final(self).addrs() == if old(self).addrs().contains(addr@) {
                old(self).addrs()
            } else {
                old(self).addrs().push(addr@)
            },
    {
        if self.position(addr.as_str()).is_some() {
            return;
        }
        let ghost before = self.addrs();
        self.inner.push(Node { addr });
        assert(self.addrs() =~= before.push(addr@));
    }

    /// Forgets `addr`.
    pub fn evict_node(&mut self, addr: &str)
        requires
            old(self).wf(),
        ensures
            final(self).wf(),
            !final(self).addrs().contains(addr@),
            forall|a: Seq<char>|
                a != addr@ ==> (final(self).addrs().contains(a) <==> old(self).addrs().contains(a)),
            !old(self).addrs().contains(addr@) ==> final(self).addrs() == old(self).addrs(),
            old(self).addrs().contains(addr@) ==> exists|i: int|
                0 <= i < old(self).addrs().len() && old(self).addrs()[i] == addr@
                    && final(self).addrs() == old(self).addrs().remove(i),
    {
        match self.position(addr) {
            Some(i) => {
                let ghost before = self.addrs();
                self.inner.remove(i);
                proof {
                    assert(self.addrs() =~= before.remove(i as int));
                    assert forall|a: Seq<char>| a != addr@ implies (self.addrs().contains(a)
                        <==> before.contains(a)) by {
                        if before.contains(a) {
                            let k = choose|k: int| 0 <= k < before.len() && before[k] == a;
                            assert(k != i);
                            if k < i {
                                assert(self.addrs()[k] == a);
                            } else {
                                assert(self.addrs()[k - 1] == a);
                            }
                        }
                    }
                    if self.addrs().contains(addr@) {
                        let k = choose|k: int| 0 <= k < self.addrs().len() && self.addrs()[k] == addr@;
                        if k < i {
                            assert(before[k] == before[i as int]);
                        } else {
                            assert(before[k + 1] == before[i as int]);
                        }
                    }
                }
            },
            None => {},
        }
    }

    /// The earliest known peer.
    pub fn first(&self) -> (r: Option<Node>)
        ensures
            r is None <==> self.addrs().len() == 0,
            r matches Some(n) ==> n.addr@ == self.addrs()[0],
    {
        if self.inner.len() == 0 {
            None
        } else {
            Some(Node { addr: self.inner[0].addr.clone() })
        }
    }

    /// Whether `addr` is known.
    pub fn node_is_known(&self, addr: &str) -> (r: bool)
        ensures
            r == self.addrs().contains(addr@),
    {
        self.position(addr).is_some()
    }
}

} // verus!
