//! The server-side dispatcher: which peers have a live per-peer pipeline.
//! Peers are keyed by an address identifier the caller derives from the
//! socket address; the value is an opaque token the caller uses to find
//! the peer's channel. Dropped peers are swept out before each poll so
//! their handshake can happen again.
use vstd::prelude::*;

verus! {

/// One registered peer: its address identifier and the caller's token
/// for the per-peer pipeline.
#[derive(Debug, Clone, Copy, PartialEq, Eq, Structural)]
pub struct PeerEntry {
    pub addr: u64,
    pub token: u64,
}

/// The peer table of one listening socket.
#[derive(Debug)]
pub struct Incoming {
    pub router: Vec<PeerEntry>,
}

/// Whether the table holds an entry for `addr`.
pub open spec fn table_contains(t: Seq<PeerEntry>, addr: u64) -> bool {
    exists|k: int| 0 <= k < t.len() && t[k].addr == addr
}

impl Incoming {
    /// Addresses are registered at most once.
    pub open spec fn wf(self) -> bool {
        forall|a: int, b: int|
            0 <= a < b < self.router@.len() ==> (#[trigger] self.router@[a]).addr != (
            #[trigger] self.router@[b]).addr
    }

    pub fn new() -> (r: Incoming)
        ensures
            r.wf(),
            r.router@.len() == 0,
    {
        Incoming { router: Vec::new() }
    }

    /// The token of a known peer, or nothing for a new one.
    pub fn route(&self, addr: u64) -> (r: Option<u64>)
        ensures
            (r is Some) == table_contains(self.router@, addr),
            (match r {
                Some(tok) => exists|k: int|
                    0 <= k < self.router@.len() && #[trigger] self.router@[k] == (PeerEntry {
                        addr,
                        token: tok,
                    }),
                None => true,
            }),
    {
        let mut k: usize = 0;
        while k < self.router.len()
            invariant
                k <= self.router@.len(),
                forall|q: int| 0 <= q < k ==> (#[trigger] self.router@[q]).addr != addr,
            decreases self.router@.len() - k,
        {
            if self.router[k].addr == addr {
                return Some(self.router[k].token);
            }
            k = k + 1;
        }
        None
    }

    /// Register a new peer's pipeline token.
    pub fn register(&mut self, addr: u64, token: u64)
        requires
            old(self).wf(),
            !table_contains(old(self).router@, addr),
        ensures
            final(self).wf(),
            final(self).router@ == old(self).router@.push(PeerEntry { addr, token }),
    {
        self.router.push(PeerEntry { addr, token });
        proof {
            assert forall|a: int, b: int|
                0 <= a < b < self.router@.len() implies (#[trigger] self.router@[a]).addr != (
            #[trigger] self.router@[b]).addr by {
                if b == self.router@.len() - 1 {
                    assert(old(self).router@[a].addr != addr) by {
                        if old(self).router@[a].addr == addr {
                            assert(table_contains(old(self).router@, addr));
                        }
                    }
                }
            }
        }
    }

    /// Forget one peer, so its handshake can happen again.
    pub fn evict(&mut self, addr: u64)
        requires
            old(self).wf(),
        ensures
            final(self).wf(),
            !table_contains(final(self).router@, addr),
            forall|y: u64| y != addr ==> (table_contains(final(self).router@, y)
                == table_contains(old(self).router@, y)),
    {
        let ghost t0 = self.router@;
        let mut kept: Vec<PeerEntry> = Vec::new();
        let mut k: usize = 0;
        while k < self.router.len()
            invariant
                k <= self.router@.len(),
                self.router@ == t0,
                old(self).wf(),
                forall|q: int| 0 <= q < kept@.len() ==> (#[trigger] kept@[q]).addr != addr,
                forall|q: int| 0 <= q < kept@.len() ==> exists|p: int|
                    0 <= p < k && #[trigger] kept@[q] == t0[p],
                forall|p: int| 0 <= p < k && (#[trigger] t0[p]).addr != addr ==> kept@.contains(
                    t0[p],
                ),
                forall|a: int, b: int| 0 <= a < b < kept@.len() ==> (#[trigger] kept@[a]).addr != (
                #[trigger] kept@[b]).addr,
            decreases self.router@.len() - k,
        {
            let e = self.router[k];
            let ghost kept0 = kept@;
            if e.addr != addr {
                proof {
                    assert forall|q: int| 0 <= q < kept@.len() implies (#[trigger] kept@[q]).addr
                        != e.addr by {
                        let p = choose|p: int| 0 <= p < k && kept@[q] == t0[p];
                        assert(t0[p].addr != t0[k as int].addr);
                    }
                }
                kept.push(e);
            }
            proof {
                assert forall|p: int| 0 <= p < k + 1 && (#[trigger] t0[p]).addr != addr
                    implies kept@.contains(t0[p]) by {
                    if p < k {
                        assert(kept0.contains(t0[p]));
                        let q = choose|q: int| 0 <= q < kept0.len() && kept0[q] == t0[p];
                        assert(kept@[q] == t0[p]);
                    } else {
                        assert(kept@[kept@.len() - 1] == t0[p]);
                    }
                }
            }
            k = k + 1;
        }
        self.router = kept;
        proof {
            assert forall|y: u64| y != addr implies (table_contains(self.router@, y)
                == table_contains(t0, y)) by {
                if table_contains(self.router@, y) {
                    let q = choose|q: int|
                        0 <= q < self.router@.len() && self.router@[q].addr == y;
                    let p = choose|p: int| 0 <= p < t0.len() && self.router@[q] == t0[p];
                    assert(t0[p].addr == y);
                }
                if table_contains(t0, y) {
                    let p = choose|p: int| 0 <= p < t0.len() && t0[p].addr == y;
                    assert(self.router@.contains(t0[p]));
                    let q = choose|q: int| 0 <= q < self.router@.len() && self.router@[q] == t0[p];
                    assert(self.router@[q].addr == y);
                }
            }
        }
    }

    /// Sweep out every peer whose pipeline was dropped since the last
    /// poll, so their handshakes can happen again.
    pub fn clear_dropped_addr(&mut self, dropped: &Vec<u64>)
        requires
            old(self).wf(),
        ensures
            final(self).wf(),
            forall|k: int| 0 <= k < dropped@.len() ==> !table_contains(
                final(self).router@,
                #[trigger] dropped@[k],
            ),
            forall|y: u64| !dropped@.contains(y) ==> (table_contains(final(self).router@, y)
                == table_contains(old(self).router@, y)),
    {
        let mut i: usize = 0;
        while i < dropped.len()
            invariant
                i <= dropped@.len(),
                self.wf(),
                forall|k: int| 0 <= k < i ==> !table_contains(
                    self.router@,
                    #[trigger] dropped@[k],
                ),
                forall|y: u64| !dropped@.contains(y) ==> (table_contains(self.router@, y)
                    == table_contains(old(self).router@, y)),
            decreases dropped@.len() - i,
        {
            let ghost before = self.router@;
            self.evict(dropped[i]);
            proof {
                assert forall|k: int| 0 <= k < i + 1 implies !table_contains(
                    self.router@,
                    #[trigger] dropped@[k],
                ) by {
                    if k < i {
                        assert(!table_contains(before, dropped@[k]));
                        if dropped@[k] != dropped@[i as int] {
                            assert(table_contains(self.router@, dropped@[k]) == table_contains(
                                before,
                                dropped@[k],
                            ));
                        }
                    }
                }
                assert forall|y: u64| !dropped@.contains(y) implies (table_contains(
                    self.router@,
                    y,
                ) == table_contains(old(self).router@, y)) by {
                    assert(y != dropped@[i as int]);
                }
            }
            i = i + 1;
        }
    }
}

} // verus!
