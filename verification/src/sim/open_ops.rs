//! The open client ops of a run, keyed by token, seen as the sequence of
//! those ops in token order.

use std::collections::BTreeMap;
use vstd::prelude::*;

use crate::sim::scheduler::{pending_index, tokens_sorted, PendingOp};

verus! {

/// The open client ops: a map from token to op, and the ops in token order
/// as its view.
pub struct OpenOps {
    by_token: BTreeMap<u64, PendingOp>,
    order: Ghost<Seq<PendingOp>>,
    floor: u64,
}

impl View for OpenOps {
    type V = Seq<PendingOp>;

    closed spec fn view(&self) -> Seq<PendingOp> {
        self.order@
    }
}

/// In a token-sorted sequence, the op holding `token` is the one at `i`.
proof fn lemma_index_of(p: Seq<PendingOp>, i: int, token: u64)
    requires
        tokens_sorted(p),
        0 <= i < p.len(),
        p[i].token == token,
    ensures
        pending_index(p, token) == Some(i),
{
    let j = choose|j: int| 0 <= j < p.len() && (#[trigger] p[j]).token == token;
    if j != i {
        if j < i {
            assert(p[j].token < p[i].token);
        } else {
            assert(p[i].token < p[j].token);
        }
    }
}

impl OpenOps {
    /// The map holds exactly the ops of the order, each under its token;
    /// the tokens increase along the order and none lies below the floor.
    pub closed spec fn wf(&self) -> bool {
        &&& tokens_sorted(self.order@)
        &&& forall|i: int|
            0 <= i < self.order@.len() ==> self.by_token@.contains_key((#[trigger] self.order@[i]).token)
                && self.by_token@[self.order@[i].token] == self.order@[i] && self.floor
                <= self.order@[i].token
        &&& forall|k: u64|
            #[trigger] self.by_token@.contains_key(k) ==> exists|i: int|
                0 <= i < self.order@.len() && (#[trigger] self.order@[i]).token == k
    }

    /// No open ops.
    pub fn new() -> (r: OpenOps)
        ensures
            r.wf(),
            r@ == Seq::<PendingOp>::empty(),
    {
        broadcast use vstd::std_specs::btree::group_btree_axioms;

        OpenOps { by_token: BTreeMap::new(), order: Ghost(Seq::empty()), floor: 0 }
    }

    /// Whether there is no open op.
    pub fn is_empty(&self) -> (r: bool)
        requires
            self.wf(),
        ensures
            r == (self@.len() == 0),
    {
        broadcast use vstd::std_specs::btree::group_btree_axioms;

        let r = self.by_token.is_empty();
        proof {
            if self.order@.len() > 0 {
                assert(self.by_token@.contains_key(self.order@[0].token));
                assert(self.by_token@.dom().contains(self.order@[0].token));
            }
            if !r {
                let k = self.by_token@.dom().choose();
                assert(self.by_token@.dom().contains(k));
                assert(self.by_token@.contains_key(k));
            }
        }
        r
    }

    /// Open `op`, whose token is above every open one.
    pub fn push(&mut self, op: PendingOp)
        requires
            old(self).wf(),
            forall|i: int| 0 <= i < old(self)@.len() ==> (#[trigger] old(self)@[i]).token < op.token,
        ensures
            final(self).wf(),
            final(self)@ == old(self)@.push(op),
    {
        broadcast use vstd::std_specs::btree::group_btree_axioms, vstd::laws_cmp::group_laws_cmp;

        let ghost o = self.order@;
        let ghost m = self.by_token@;
        assert(o == old(self)@);
        let tok = op.token;
        if tok < self.floor {
            self.floor = tok;
        }
        self.by_token.insert(tok, op);
        self.order = Ghost(o.push(op));
        proof {
            let n = self.order@;
            assert forall|i: int| 0 <= i < n.len() implies self.by_token@.contains_key(
                (#[trigger] n[i]).token,
            ) && self.by_token@[n[i].token] == n[i] && self.floor <= n[i].token by {
                if i < o.len() {
                    assert(n[i] == o[i]);
                    assert(old(self)@[i].token < tok);
                }
            }
            assert forall|k: u64| #[trigger] self.by_token@.contains_key(k) implies exists|i: int|
                0 <= i < n.len() && (#[trigger] n[i]).token == k by {
                if k == tok {
                    let last: int = n.len() - 1;
                    assert(n[last].token == k);
                } else {
                    assert(m.contains_key(k));
                    let i = choose|i: int| 0 <= i < o.len() && (#[trigger] o[i]).token == k;
                    assert(n[i] == o[i]);
                }
            }
            assert forall|a: int, b: int| 0 <= a < b < n.len() implies (#[trigger] n[a]).token < (
            #[trigger] n[b]).token by {
                if b < o.len() {
                    assert(n[a] == o[a] && n[b] == o[b]);
                } else {
                    assert(n[a] == o[a]);
                    assert(old(self)@[a].token < tok);
                }
            }
        }
    }

    /// The open op holding `token`, if any.
    pub fn get(&self, token: u64) -> (r: Option<&PendingOp>)
        requires
            self.wf(),
        ensures
            match pending_index(self@, token) {
                None => r is None,
                Some(i) => r matches Some(op) && *op == self@[i],
            },
    {
        broadcast use vstd::std_specs::btree::group_btree_axioms, vstd::laws_cmp::group_laws_cmp;

        let r = self.by_token.get(&token);
        proof {
            let o = self.order@;
            match r {
                Some(op) => {
                    let i = choose|i: int| 0 <= i < o.len() && (#[trigger] o[i]).token == token;
                    lemma_index_of(o, i, token);
                },
                None => {
                    if exists|i: int| 0 <= i < o.len() && (#[trigger] o[i]).token == token {
                        let i = choose|i: int| 0 <= i < o.len() && (#[trigger] o[i]).token == token;
                        assert(self.by_token@.contains_key(o[i].token));
                    }
                },
            }
        }
        r
    }

    /// Close the op holding `token`: it leaves the order and comes back.
    pub fn take(&mut self, token: u64) -> (r: Option<PendingOp>)
        requires
            old(self).wf(),
        ensures
            final(self).wf(),
            match pending_index(old(self)@, token) {
                None => r is None && final(self)@ == old(self)@,
                Some(i) => r == Some(old(self)@[i]) && final(self)@ == old(self)@.remove(i),
            },
    {
        broadcast use vstd::std_specs::btree::group_btree_axioms, vstd::laws_cmp::group_laws_cmp;

        let ghost o = self.order@;
        let ghost m = self.by_token@;
        let r = self.by_token.remove(&token);
        match &r {
            None => {
                proof {
                    if exists|i: int| 0 <= i < o.len() && (#[trigger] o[i]).token == token {
                        let i = choose|i: int| 0 <= i < o.len() && (#[trigger] o[i]).token == token;
                        assert(m.contains_key(o[i].token));
                    }
                    assert(self.by_token@ =~= m);
                }
            },
            Some(_) => {
                let ghost i = choose|i: int| 0 <= i < o.len() && (#[trigger] o[i]).token == token;
                proof {
                    lemma_index_of(o, i, token);
                }
                self.order = Ghost(o.remove(i));
                proof {
                    let n = self.order@;
                    assert forall|a: int| 0 <= a < n.len() implies self.by_token@.contains_key(
                        (#[trigger] n[a]).token,
                    ) && self.by_token@[n[a].token] == n[a] && self.floor <= n[a].token by {
                        let a0 = if a < i { a } else { a + 1 };
                        assert(n[a] == o[a0]);
                        assert(o[a0].token != token);
                    }
                    assert forall|k: u64| #[trigger] self.by_token@.contains_key(k) implies exists|a: int|
                        0 <= a < n.len() && (#[trigger] n[a]).token == k by {
                        assert(m.contains_key(k));
                        let b = choose|b: int| 0 <= b < o.len() && (#[trigger] o[b]).token == k;
                        assert(b != i);
                        let a = if b < i { b } else { b - 1 };
                        assert(n[a] == o[b]);
                    }
                    assert forall|a: int, b: int| 0 <= a < b < n.len() implies (#[trigger] n[a]).token < (
                    #[trigger] n[b]).token by {
                        let a0 = if a < i { a } else { a + 1 };
                        let b0 = if b < i { b } else { b + 1 };
                        assert(n[a] == o[a0] && n[b] == o[b0]);
                    }
                }
            },
        }
        r
    }

    /// Close the open op with the smallest token: the first of the order. The
    /// search for it starts at the floor, which then moves past it.
    pub fn take_first(&mut self) -> (r: PendingOp)
        requires
            old(self).wf(),
            old(self)@.len() > 0,
        ensures
            final(self).wf(),
            r == old(self)@[0],
            final(self)@ == old(self)@.drop_first(),
    {
        broadcast use vstd::std_specs::btree::group_btree_axioms, vstd::laws_cmp::group_laws_cmp;

        let ghost o = self.order@;
        let ghost first = o[0].token;
        let mut t: u64 = self.floor;
        while !self.by_token.contains_key(&t)
            invariant
                self.wf(),
                self.order@ == o,
                o.len() > 0,
                first == o[0].token,
                t <= first,
            decreases first - t,
        {
            proof {
                assert(self.by_token@.contains_key(o[0].token));
                assert(t != first);
            }
            t = t + 1;
        }
        proof {
            let i = choose|i: int| 0 <= i < o.len() && (#[trigger] o[i]).token == t;
            if i > 0 {
                assert(o[0].token < o[i].token);
            }
            assert(t == first);
            lemma_index_of(o, 0, t);
        }
        let r = self.take(t);
        proof {
            assert(o.remove(0) =~= o.drop_first());
        }
        if t < u64::MAX {
            proof {
                assert forall|i: int| 0 <= i < self.order@.len() implies t < (#[trigger] self.order@[i]).token by {
                    assert(self.order@[i] == o[i + 1]);
                }
            }
            self.floor = t + 1;
        }
        r.unwrap()
    }
}

} // verus!
