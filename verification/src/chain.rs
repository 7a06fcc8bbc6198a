//! Ghost model of the circular doubly-linked lists that are threaded through
//! one arena of slots.
//!
//! Every list has a sentinel, which is the slot with the smallest index of the
//! list and is never unlinked. The other members keep their arena order inside
//! the list. A member that is unlinked keeps its two pointers and records a
//! stamp that says when it left; the pointers of every slot always name the
//! nearest neighbours that were still linked at the moment the slot itself was
//! last linked. This is what makes unlinking undoable in reverse order.

use vstd::prelude::*;

verus! {

pub struct Chain {
    /// Pointer towards smaller indices (`up` or `left`).
    pub prev: Seq<usize>,
    /// Pointer towards greater indices (`down` or `right`).
    pub next: Seq<usize>,
    /// Sentinel of the list that the slot belongs to; negative when the slot
    /// takes no part in this family of lists.
    pub home: Seq<int>,
    /// `-1` while the slot is linked, otherwise the number of the operation
    /// that unlinked it.
    pub op: Seq<int>,
    /// Position of the unlinking inside its operation; `-1` while linked.
    pub sub: Seq<int>,
    /// Slots unlinked by an operation below this number stay unlinked for
    /// good; nothing is said about where their pointers lead.
    pub floor: int,
}

impl Chain {
    pub open spec fn len(self) -> int {
        self.prev.len() as int
    }

    pub open spec fn shaped(self) -> bool {
        &&& self.next.len() == self.prev.len()
        &&& self.home.len() == self.prev.len()
        &&& self.op.len() == self.prev.len()
        &&& self.sub.len() == self.prev.len()
    }

    pub open spec fn alive(self, n: int) -> bool {
        self.op[n] < 0
    }

    /// Slot `n` was unlinked strictly before slot `m`.
    pub open spec fn older(self, n: int, m: int) -> bool {
        self.op[n] < self.op[m] || (self.op[n] == self.op[m] && self.sub[n] < self.sub[m])
    }

    /// Slot `m` was linked at the last moment at which `n` was linked.
    pub open spec fn sees(self, n: int, m: int) -> bool {
        self.alive(m) || (!self.alive(n) && self.older(n, m))
    }

    /// The stamp `(op, sub)` is later than the stamp of every unlinked member
    /// of the list of `s`, except possibly `skip`.
    pub open spec fn newest(self, s: int, op: int, sub: int, skip: int) -> bool {
        forall|m: int|
            0 <= m < self.len() && #[trigger] self.home[m] == s && !self.alive(m) && m != skip
                ==> self.op[m] < op || (self.op[m] == op && self.sub[m] < sub)
    }

    pub open spec fn next_ok(self, n: int) -> bool {
        let s = self.home[n];
        let x = self.next[n] as int;
        &&& x == s || (n < x < self.len() && self.home[x] == s && self.sees(n, x))
        &&& forall|m: int|
            n < m < (if x == s { self.len() } else { x }) && #[trigger] self.home[m] == s
                ==> !self.sees(n, m)
    }

    pub open spec fn prev_ok(self, n: int) -> bool {
        let s = self.home[n];
        let p = self.prev[n] as int;
        if n == s {
            &&& p == s || (s < p < self.len() && self.home[p] == s && self.alive(p))
            &&& forall|m: int|
                p < m < self.len() && #[trigger] self.home[m] == s ==> !self.alive(m)
        } else {
            &&& s <= p < n
            &&& self.home[p] == s
            &&& self.sees(n, p)
            &&& forall|m: int| p < m < n && #[trigger] self.home[m] == s ==> !self.sees(n, m)
        }
    }

    pub open spec fn node_ok(self, n: int) -> bool {
        let s = self.home[n];
        &&& self.op[n] >= -1
        &&& self.alive(n) ==> self.sub[n] == -1
        &&& s >= 0 ==> {
            &&& s <= n
            &&& self.home[s] == s
            &&& self.alive(s)
            &&& self.prev[n] < self.len()
            &&& self.next[n] < self.len()
            &&& self.home[self.prev[n] as int] == s
            &&& self.home[self.next[n] as int] == s
            &&& !self.alive(n) ==> self.next[self.prev[n] as int] != n
            &&& self.alive(n) || self.op[n] >= self.floor ==> self.next_ok(n) && self.prev_ok(n)
        }
    }

    /// Every unlinked slot is below the floor.
    pub open spec fn settled(self) -> bool {
        forall|m: int| 0 <= m < self.len() && !self.alive(m) ==> #[trigger] self.op[m] < self.floor
    }

    pub open spec fn ok(self) -> bool {
        &&& self.shaped()
        &&& forall|n: int| 0 <= n < self.len() ==> #[trigger] self.node_ok(n)
    }

    /// Number of linked members, the sentinel not counted, among the first
    /// `k` slots of the arena that belong to the list of `s`.
    pub open spec fn linked_below(self, s: int, k: int) -> int
        decreases k,
    {
        if k <= 0 {
            0
        } else {
            self.linked_below(s, k - 1) + if self.home[k - 1] == s && k - 1 != s && self.alive(
                k - 1,
            ) {
                1int
            } else {
                0int
            }
        }
    }

    /// Number of linked members of the list of `s`.
    pub open spec fn linked(self, s: int) -> int {
        self.linked_below(s, self.len())
    }

    /// The chain after member `n` has been spliced out with the given stamp.
    pub open spec fn unlinked(self, n: int, op: int, sub: int) -> Chain {
        Chain {
            prev: self.prev.update(self.next[n] as int, self.prev[n]),
            next: self.next.update(self.prev[n] as int, self.next[n]),
            home: self.home,
            op: self.op.update(n, op),
            sub: self.sub.update(n, sub),
            floor: self.floor,
        }
    }

    /// The chain after member `n` has been spliced back in.
    pub open spec fn relinked(self, n: int) -> Chain {
        Chain {
            prev: self.prev.update(self.next[n] as int, n as usize),
            next: self.next.update(self.prev[n] as int, n as usize),
            home: self.home,
            op: self.op.update(n, -1),
            sub: self.sub.update(n, -1),
            floor: self.floor,
        }
    }

    /// The chain after a fresh sentinel has been appended to the arena.
    pub open spec fn with_sentinel(self) -> Chain {
        Chain {
            prev: self.prev.push(self.len() as usize),
            next: self.next.push(self.len() as usize),
            home: self.home.push(self.len()),
            op: self.op.push(-1),
            sub: self.sub.push(-1),
            floor: self.floor,
        }
    }

    /// The chain after a slot that belongs to no list has been appended.
    pub open spec fn with_stranger(self, prev: usize, next: usize) -> Chain {
        Chain {
            prev: self.prev.push(prev),
            next: self.next.push(next),
            home: self.home.push(-1),
            op: self.op.push(-1),
            sub: self.sub.push(-1),
            floor: self.floor,
        }
    }

    /// The chain after a fresh linked member has been appended to the arena
    /// and to the end of the list of `s`.
    pub open spec fn with_member(self, s: int) -> Chain {
        let n = self.len();
        let last = self.prev[s];
        Chain {
            prev: self.prev.push(last).update(s, n as usize),
            next: self.next.push(s as usize).update(last as int, n as usize),
            home: self.home.push(s),
            op: self.op.push(-1),
            sub: self.sub.push(-1),
            floor: self.floor,
        }
    }
}

pub proof fn lemma_linked_below_bounds(ch: Chain, s: int, k: int)
    requires
        0 <= k,
    ensures
        0 <= ch.linked_below(s, k) <= k,
    decreases k,
{
    if k > 0 {
        lemma_linked_below_bounds(ch, s, k - 1);
    }
}

/// Two chains that agree on membership and liveness below `k` count alike.
pub proof fn lemma_linked_below_same(a: Chain, b: Chain, s: int, k: int)
    requires
        0 <= k <= a.len(),
        k <= b.len(),
        a.shaped(),
        b.shaped(),
        forall|m: int| 0 <= m < k ==> a.home[m] == b.home[m],
        forall|m: int| 0 <= m < k && a.home[m] == s && m != s ==> (a.alive(m) <==> b.alive(m)),
    ensures
        a.linked_below(s, k) == b.linked_below(s, k),
    decreases k,
{
    if k > 0 {
        lemma_linked_below_same(a, b, s, k - 1);
    }
}

/// Changing the liveness of the single member `n` moves the count by one.
pub proof fn lemma_linked_below_flip(a: Chain, b: Chain, s: int, n: int, k: int)
    requires
        0 <= k <= a.len(),
        a.len() == b.len(),
        a.shaped(),
        b.shaped(),
        0 <= n < a.len(),
        a.home[n] == s,
        n != s,
        a.home == b.home,
        a.alive(n) != b.alive(n),
        forall|m: int| 0 <= m < a.len() && m != n ==> (a.alive(m) <==> b.alive(m)),
    ensures
        b.linked_below(s, k) == a.linked_below(s, k) + if k <= n {
            0int
        } else if b.alive(n) {
            1int
        } else {
            -1int
        },
    decreases k,
{
    if k > 0 {
        lemma_linked_below_flip(a, b, s, n, k - 1);
    }
}

/// A linked member witnesses a positive count.
pub proof fn lemma_linked_below_witness(ch: Chain, s: int, n: int, k: int)
    requires
        0 <= n < k,
        ch.home[n] == s,
        n != s,
        ch.alive(n),
    ensures
        ch.linked_below(s, k) >= 1,
    decreases k,
{
    if k - 1 > n {
        lemma_linked_below_witness(ch, s, n, k - 1);
    } else {
        lemma_linked_below_bounds(ch, s, k - 1);
    }
}

/// With no linked member in `[lo, hi)` the count does not grow over the range.
pub proof fn lemma_linked_below_gap(ch: Chain, s: int, lo: int, hi: int)
    requires
        0 <= lo <= hi,
        forall|m: int| lo <= m < hi && #[trigger] ch.home[m] == s && m != s ==> !ch.alive(m),
    ensures
        ch.linked_below(s, hi) == ch.linked_below(s, lo),
    decreases hi - lo,
{
    if lo < hi {
        lemma_linked_below_gap(ch, s, lo, hi - 1);
    }
}

/// A list without linked members: the sentinel points at itself.
pub proof fn lemma_empty_list(ch: Chain, s: int)
    requires
        ch.ok(),
        0 <= s < ch.len(),
        ch.home[s] == s,
    ensures
        (ch.next[s] == s) <==> ch.linked(s) == 0,
        (ch.next[s] == s) <==> (forall|m: int|
            0 <= m < ch.len() && #[trigger] ch.home[m] == s && m != s ==> !ch.alive(m)),
{
    assert(ch.node_ok(s));
    let x = ch.next[s] as int;
    if x == s {
        assert forall|m: int| 0 <= m < ch.len() && #[trigger] ch.home[m] == s && m != s implies !ch.alive(
            m,
        ) by {
            assert(ch.node_ok(m));
        }
        lemma_linked_below_gap(ch, s, 0, ch.len());
    } else {
        lemma_linked_below_witness(ch, s, x, ch.len());
    }
}

/// Splicing a linked member out, with a stamp later than every stamp of its
/// list, keeps the lists well formed and lowers the count of its list by one.
pub proof fn lemma_unlink(ch: Chain, n: int, op: int, sub: int)
    requires
        ch.ok(),
        0 <= n < ch.len(),
        ch.home[n] >= 0,
        ch.home[n] != n,
        ch.alive(n),
        op >= 0,
        op >= ch.floor,
        ch.newest(ch.home[n], op, sub, n),
    ensures
        ch.unlinked(n, op, sub).ok(),
        ch.unlinked(n, op, sub).linked(ch.home[n]) == ch.linked(ch.home[n]) - 1,
        forall|t: int| t != ch.home[n] ==> ch.unlinked(n, op, sub).linked(t) == ch.linked(t),
{
    let b = ch.unlinked(n, op, sub);
    let s = ch.home[n];
    let p = ch.prev[n] as int;
    let x = ch.next[n] as int;
    assert(ch.node_ok(n));
    assert(ch.node_ok(p));
    assert(ch.node_ok(x));
    assert(ch.node_ok(s));
    assert forall|k: int| 0 <= k < b.len() implies #[trigger] b.node_ok(k) by {
        assert(ch.node_ok(k));
        if ch.home[k] == s {
            lemma_unlink_same_list(ch, n, op, sub, k);
        } else if ch.home[k] >= 0 {
            let t = ch.home[k];
            assert(ch.node_ok(t));
            assert(b.next[k] == ch.next[k]);
            assert(b.prev[k] == ch.prev[k]);
            assert forall|m: int| 0 <= m < ch.len() && ch.home[m] == t implies (b.sees(k, m)
                <==> ch.sees(k, m)) && (b.alive(m) <==> ch.alive(m)) by {}
            assert(b.alive(k) || b.op[k] >= b.floor ==> b.next_ok(k));
            assert(b.alive(k) || b.op[k] >= b.floor ==> b.prev_ok(k));
        }
    }
    lemma_linked_below_flip(ch, b, s, n, ch.len());
    assert forall|t: int| t != s implies b.linked(t) == ch.linked(t) by {
        lemma_linked_below_same(ch, b, t, ch.len());
    }
}

proof fn lemma_unlink_same_list(ch: Chain, n: int, op: int, sub: int, k: int)
    requires
        ch.ok(),
        0 <= n < ch.len(),
        ch.home[n] >= 0,
        ch.home[n] != n,
        ch.alive(n),
        op >= 0,
        op >= ch.floor,
        ch.newest(ch.home[n], op, sub, n),
        0 <= k < ch.len(),
        ch.home[k] == ch.home[n],
    ensures
        ch.unlinked(n, op, sub).node_ok(k),
{
    let b = ch.unlinked(n, op, sub);
    let s = ch.home[n];
    let p = ch.prev[n] as int;
    let x = ch.next[n] as int;
    assert(ch.node_ok(n));
    assert(ch.node_ok(p));
    assert(ch.node_ok(x));
    assert(ch.node_ok(s));
    assert(ch.node_ok(k));
    // How visibility from `k` changes: only the view of `n` can differ.
    assert forall|m: int| 0 <= m < ch.len() && ch.home[m] == s && m != n implies (b.sees(k, m)
        <==> ch.sees(k, m)) by {
        if k == n {
            if !ch.alive(m) {
                assert(ch.op[m] < op || (ch.op[m] == op && ch.sub[m] < sub));
            }
        }
    }
    if k == n {
        assert(b.next[k] == ch.next[k]);
        assert(b.prev[k] == ch.prev[k]);
        assert(b.alive(k) || b.op[k] >= b.floor ==> b.next_ok(k));
        assert(b.alive(k) || b.op[k] >= b.floor ==> b.prev_ok(k));
    } else if !ch.alive(k) {
        assert(ch.op[k] < op || (ch.op[k] == op && ch.sub[k] < sub));
        assert(b.sees(k, n));
        assert(ch.sees(k, n));
        assert(k != p);
        assert(k != x) by {
            if k == x {
                assert(ch.sees(n, x));
            }
        }
        assert(b.next[k] == ch.next[k]);
        assert(b.prev[k] == ch.prev[k]);
        assert(b.alive(k) || b.op[k] >= b.floor ==> b.next_ok(k));
        assert(b.alive(k) || b.op[k] >= b.floor ==> b.prev_ok(k));
    } else {
        // `k` is linked (or the sentinel) and is not `n`.
        assert(!b.sees(k, n));
        if k == p {
            assert(b.next[k] == x);
            assert(b.alive(k) || b.op[k] >= b.floor ==> b.next_ok(k));
        } else {
            assert(b.next[k] == ch.next[k]);
            assert(ch.next[k] != n) by {
                if ch.next[k] == n {
                    // then k is linked below n with nothing linked between,
                    // so k is the predecessor of n
                    if k < p {
                        assert(ch.home[p] == s);
                    }
                }
            }
            assert(b.alive(k) || b.op[k] >= b.floor ==> b.next_ok(k));
        }
        if k == x {
            assert(b.prev[k] == p);
            assert(b.alive(k) || b.op[k] >= b.floor ==> b.prev_ok(k));
        } else {
            assert(b.prev[k] == ch.prev[k]);
            assert(ch.prev[k] != n) by {
                if ch.prev[k] == n {
                    if k == s {
                        assert(ch.home[n] == s);
                    } else {
                        assert(ch.home[k] == s);
                        if x != s && x < k {
                            assert(ch.home[x] == s);
                        }
                    }
                }
            }
            assert(b.alive(k) || b.op[k] >= b.floor ==> b.prev_ok(k));
        }
    }
}

/// Splicing the most recently unlinked member of a list back in keeps the
/// lists well formed and raises the count of its list by one.
pub proof fn lemma_relink(ch: Chain, n: int)
    requires
        ch.ok(),
        0 <= n < ch.len(),
        ch.home[n] >= 0,
        ch.home[n] != n,
        !ch.alive(n),
        n <= usize::MAX,
        ch.op[n] >= ch.floor,
        ch.newest(ch.home[n], ch.op[n], ch.sub[n], n),
    ensures
        ch.relinked(n).ok(),
        ch.relinked(n).linked(ch.home[n]) == ch.linked(ch.home[n]) + 1,
        forall|t: int| t != ch.home[n] ==> ch.relinked(n).linked(t) == ch.linked(t),
{
    let b = ch.relinked(n);
    let s = ch.home[n];
    assert(ch.node_ok(n));
    assert forall|k: int| 0 <= k < b.len() implies #[trigger] b.node_ok(k) by {
        assert(ch.node_ok(k));
        if ch.home[k] == s {
            lemma_relink_same_list(ch, n, k);
        } else if ch.home[k] >= 0 {
            let t = ch.home[k];
            assert(ch.node_ok(t));
            assert(ch.node_ok(ch.prev[n] as int));
            assert(ch.node_ok(ch.next[n] as int));
            assert(b.next[k] == ch.next[k]);
            assert(b.prev[k] == ch.prev[k]);
            assert forall|m: int| 0 <= m < ch.len() && ch.home[m] == t implies (b.sees(k, m)
                <==> ch.sees(k, m)) && (b.alive(m) <==> ch.alive(m)) by {}
            assert(b.alive(k) || b.op[k] >= b.floor ==> b.next_ok(k));
            assert(b.alive(k) || b.op[k] >= b.floor ==> b.prev_ok(k));
        }
    }
    lemma_linked_below_flip(ch, b, s, n, ch.len());
    assert forall|t: int| t != s implies b.linked(t) == ch.linked(t) by {
        lemma_linked_below_same(ch, b, t, ch.len());
    }
}

proof fn lemma_relink_same_list(ch: Chain, n: int, k: int)
    requires
        ch.ok(),
        0 <= n < ch.len(),
        ch.home[n] >= 0,
        ch.home[n] != n,
        !ch.alive(n),
        n <= usize::MAX,
        ch.op[n] >= ch.floor,
        ch.newest(ch.home[n], ch.op[n], ch.sub[n], n),
        0 <= k < ch.len(),
        ch.home[k] == ch.home[n],
    ensures
        ch.relinked(n).node_ok(k),
{
    let b = ch.relinked(n);
    let s = ch.home[n];
    let p = ch.prev[n] as int;
    let x = ch.next[n] as int;
    assert(ch.node_ok(n));
    assert(ch.node_ok(p));
    assert(ch.node_ok(x));
    assert(ch.node_ok(s));
    assert(ch.node_ok(k));
    // Nothing unlinked is later than `n`, so `n` sees exactly the linked slots.
    assert forall|m: int| 0 <= m < ch.len() && ch.home[m] == s && m != n implies (ch.sees(n, m)
        <==> ch.alive(m)) by {
        if !ch.alive(m) {
            assert(ch.op[m] < ch.op[n] || (ch.op[m] == ch.op[n] && ch.sub[m] < ch.sub[n]));
        }
    }
    assert(ch.alive(p));
    assert(x == s || ch.alive(x));
    assert forall|m: int| 0 <= m < ch.len() && ch.home[m] == s && m != n implies (b.sees(k, m)
        <==> ch.sees(k, m)) by {}
    if k == n {
        assert(b.next[k] == ch.next[k]);
        assert(b.prev[k] == ch.prev[k]);
        assert(b.alive(k) || b.op[k] >= b.floor ==> b.next_ok(k));
        assert(b.alive(k) || b.op[k] >= b.floor ==> b.prev_ok(k));
    } else if !ch.alive(k) {
        assert(ch.op[k] < ch.op[n] || (ch.op[k] == ch.op[n] && ch.sub[k] < ch.sub[n]));
        assert(ch.sees(k, n));
        assert(b.sees(k, n));
        assert(b.next[k] == ch.next[k]);
        assert(b.prev[k] == ch.prev[k]);
        assert(b.alive(k) || b.op[k] >= b.floor ==> b.next_ok(k));
        assert(b.alive(k) || b.op[k] >= b.floor ==> b.prev_ok(k));
    } else {
        assert(!ch.sees(k, n));
        assert(b.sees(k, n));
        if k == p {
            assert(b.next[k] == n);
            assert(ch.next[k] == x) by {
                let y = ch.next[k] as int;
                if y != s && y < n {
                    assert(ch.home[y] == s);
                }
                if x != s && (y == s || x < y) {
                    assert(ch.home[x] == s);
                }
                if y != s && x == s {
                    assert(ch.home[y] == s);
                }
            }
            assert(b.alive(k) || b.op[k] >= b.floor ==> b.next_ok(k));
        } else {
            assert(b.next[k] == ch.next[k]);
            // `n` does not lie between `k` and its successor
            assert(k < n ==> ch.next[k] != s && ch.next[k] < n) by {
                if k < n {
                    if k < p {
                        assert(ch.home[p] == s);
                    }
                }
            }
            assert(b.alive(k) || b.op[k] >= b.floor ==> b.next_ok(k));
        }
        if k == x {
            assert(b.prev[k] == n);
            assert(b.alive(k) || b.op[k] >= b.floor ==> b.prev_ok(k));
        } else {
            assert(b.prev[k] == ch.prev[k]);
            // `n` does not lie between the predecessor of `k` and `k`
            if k == s {
                assert(x != s);
                assert(ch.home[x] == s);
                assert(ch.prev[k] != s && ch.prev[k] >= x);
            } else if k > n {
                assert(x != s && x < k) by {
                    if x == s {
                        assert(ch.home[k] == s);
                    } else if x > k {
                        assert(ch.home[k] == s);
                    }
                }
                assert(ch.home[x] == s);
                assert(ch.prev[k] >= x);
            }
            assert(b.alive(k) || b.op[k] >= b.floor ==> b.prev_ok(k));
        }
    }
}

/// The pointers of a well-formed chain are fixed by membership and stamps.
pub proof fn lemma_determined(a: Chain, b: Chain, n: int)
    requires
        a.ok(),
        b.ok(),
        a.home == b.home,
        a.op == b.op,
        a.sub == b.sub,
        a.floor == b.floor,
        0 <= n < a.len(),
        a.home[n] >= 0,
        a.alive(n) || a.op[n] >= a.floor,
    ensures
        a.prev[n] == b.prev[n],
        a.next[n] == b.next[n],
{
    let s = a.home[n];
    assert(a.node_ok(n));
    assert(b.node_ok(n));
    assert forall|m: int| 0 <= m < a.len() implies (a.sees(n, m) <==> b.sees(n, m)) && (a.alive(m)
        <==> b.alive(m)) by {}
    let pa = a.prev[n] as int;
    let pb = b.prev[n] as int;
    let xa = a.next[n] as int;
    let xb = b.next[n] as int;
    assert(a.home[s] == s);
    if xa != s {
        assert(a.home[xa] == s);
    }
    if xb != s {
        assert(a.home[xb] == s);
    }
    if pa != s {
        assert(a.home[pa] == s);
    }
    if pb != s {
        assert(a.home[pb] == s);
    }
    assert(xa == xb);
    assert(pa == pb);
}

/// Appending a fresh sentinel keeps the lists well formed.
pub proof fn lemma_with_sentinel(ch: Chain)
    requires
        ch.ok(),
        ch.len() < usize::MAX,
    ensures
        ch.with_sentinel().ok(),
        ch.with_sentinel().linked(ch.len()) == 0,
        forall|t: int| t != ch.len() ==> ch.with_sentinel().linked(t) == ch.linked(t),
{
    let b = ch.with_sentinel();
    let n = ch.len();
    assert forall|k: int| 0 <= k < b.len() implies #[trigger] b.node_ok(k) by {
        if k < n {
            assert(ch.node_ok(k));
            let t = ch.home[k];
            if t >= 0 {
                assert(ch.node_ok(t));
                assert(b.next[k] == ch.next[k]);
                assert(b.prev[k] == ch.prev[k]);
                assert(b.alive(k) || b.op[k] >= b.floor ==> b.next_ok(k));
                assert(b.alive(k) || b.op[k] >= b.floor ==> b.prev_ok(k));
            }
        }
    }
    assert forall|t: int| t != n implies b.linked(t) == ch.linked(t) by {
        lemma_linked_below_same(ch, b, t, n);
    }
    assert(b.linked(n) == 0) by {
        assert forall|m: int| 0 <= m < b.len() && #[trigger] b.home[m] == n && m != n implies !b.alive(
            m,
        ) by {
            assert(ch.node_ok(m));
        }
        lemma_linked_below_gap(b, n, 0, b.len());
    }
}

/// Appending a slot that belongs to no list keeps the lists well formed.
pub proof fn lemma_with_stranger(ch: Chain, prev: usize, next: usize)
    requires
        ch.ok(),
    ensures
        ch.with_stranger(prev, next).ok(),
        forall|t: int| t >= 0 ==> ch.with_stranger(prev, next).linked(t) == ch.linked(t),
{
    let b = ch.with_stranger(prev, next);
    let n = ch.len();
    assert forall|k: int| 0 <= k < b.len() implies #[trigger] b.node_ok(k) by {
        if k < n {
            assert(ch.node_ok(k));
            let t = ch.home[k];
            if t >= 0 {
                assert(ch.node_ok(t));
                assert(b.next[k] == ch.next[k]);
                assert(b.prev[k] == ch.prev[k]);
                assert(b.alive(k) || b.op[k] >= b.floor ==> b.next_ok(k));
                assert(b.alive(k) || b.op[k] >= b.floor ==> b.prev_ok(k));
            }
        }
    }
    assert forall|t: int| t >= 0 implies b.linked(t) == ch.linked(t) by {
        lemma_linked_below_same(ch, b, t, n);
    }
}

/// Appending a fresh linked member at the end of the list of `s` keeps the
/// lists well formed and raises the count of that list by one.
pub proof fn lemma_with_member(ch: Chain, s: int)
    requires
        ch.ok(),
        ch.len() < usize::MAX,
        0 <= s < ch.len(),
        ch.home[s] == s,
        ch.settled(),
    ensures
        ch.with_member(s).ok(),
        ch.with_member(s).linked(s) == ch.linked(s) + 1,
        forall|t: int| t != s ==> ch.with_member(s).linked(t) == ch.linked(t),
{
    let b = ch.with_member(s);
    let n = ch.len();
    let last = ch.prev[s] as int;
    assert(ch.node_ok(s));
    assert(ch.node_ok(last));
    assert forall|k: int| 0 <= k < b.len() implies #[trigger] b.node_ok(k) by {
        if k < n {
            assert(ch.node_ok(k));
            let t = ch.home[k];
            if t >= 0 {
                assert(ch.node_ok(t));
                if t != s {
                    assert(b.next[k] == ch.next[k]);
                    assert(b.prev[k] == ch.prev[k]);
                    assert(b.alive(k) || b.op[k] >= b.floor ==> b.next_ok(k));
                    assert(b.alive(k) || b.op[k] >= b.floor ==> b.prev_ok(k));
                } else {
                    if k == last {
                        assert(b.next[k] == n);
                        assert(ch.next[k] == s) by {
                            let y = ch.next[k] as int;
                            if y != s {
                                assert(ch.home[y] == s);
                            }
                        }
                    } else {
                        assert(b.next[k] == ch.next[k]);
                        if ch.alive(k) {
                            assert(ch.next[k] != s) by {
                                if k < last {
                                    assert(ch.home[last] == s);
                                } else {
                                    assert(ch.home[k] == s);
                                }
                            }
                        }
                    }
                    assert(b.alive(k) || b.op[k] >= b.floor ==> b.next_ok(k));
                    if k == s {
                        assert(b.prev[k] == n);
                    } else {
                        assert(b.prev[k] == ch.prev[k]);
                    }
                    assert(b.alive(k) || b.op[k] >= b.floor ==> b.prev_ok(k));
                }
            }
        } else {
            assert(b.next[k] == s);
            assert(b.prev[k] == last);
            assert(b.alive(k) || b.op[k] >= b.floor ==> b.next_ok(k));
            assert(b.alive(k) || b.op[k] >= b.floor ==> b.prev_ok(k));
        }
    }
    assert forall|t: int| t != s implies b.linked(t) == ch.linked(t) by {
        lemma_linked_below_same(ch, b, t, n);
    }
    lemma_linked_below_same(ch, b, s, n);
}

/// Raising the floor only forgets what was known of unlinked slots.
pub proof fn lemma_raise_floor(ch: Chain, floor: int)
    requires
        ch.ok(),
        floor >= ch.floor,
    ensures
        (Chain { floor, ..ch }).ok(),
{
    let b = Chain { floor, ..ch };
    assert forall|k: int| 0 <= k < b.len() implies #[trigger] b.node_ok(k) by {
        assert(ch.node_ok(k));
        if ch.home[k] >= 0 && (b.alive(k) || b.op[k] >= b.floor) {
            assert(ch.next_ok(k));
            assert(ch.prev_ok(k));
            assert forall|m: int| 0 <= m < ch.len() implies (b.sees(k, m) <==> ch.sees(k, m)) by {}
            assert(b.alive(k) || b.op[k] >= b.floor ==> b.next_ok(k));
            assert(b.alive(k) || b.op[k] >= b.floor ==> b.prev_ok(k));
        }
    }
}

/// A linked slot is reached from both of its neighbours.
pub proof fn lemma_linked_loop(ch: Chain, n: int)
    requires
        ch.ok(),
        0 <= n < ch.len(),
        ch.home[n] >= 0,
        ch.alive(n),
    ensures
        ch.next[ch.prev[n] as int] == n,
        ch.prev[ch.next[n] as int] == n,
{
    let s = ch.home[n];
    let p = ch.prev[n] as int;
    let x = ch.next[n] as int;
    assert(ch.node_ok(n));
    assert(ch.node_ok(p));
    assert(ch.node_ok(x));
    assert(ch.node_ok(s));
    assert(ch.home[n] == s);
    assert(ch.home[p] == s);
    assert(ch.home[x] == s);
    let y = ch.next[p] as int;
    if y != s {
        assert(ch.home[y] == s);
    }
    let q = ch.prev[x] as int;
    if q != s {
        assert(ch.home[q] == s);
    }
}

/// Pointers of slots that belong to no list may change freely.
pub proof fn lemma_same_members(a: Chain, b: Chain)
    requires
        a.ok(),
        b.shaped(),
        a.len() == b.len(),
        a.home == b.home,
        a.op == b.op,
        a.sub == b.sub,
        a.floor == b.floor,
        forall|n: int|
            0 <= n < a.len() && #[trigger] a.home[n] >= 0 ==> a.prev[n] == b.prev[n] && a.next[n]
                == b.next[n],
    ensures
        b.ok(),
        forall|t: int| b.linked(t) == a.linked(t),
{
    assert forall|k: int| 0 <= k < b.len() implies #[trigger] b.node_ok(k) by {
        assert(a.node_ok(k));
        let t = a.home[k];
        if t >= 0 {
            assert(a.node_ok(t));
            assert(a.home[k] >= 0);
            assert(b.next[k] == a.next[k]);
            assert(b.prev[k] == a.prev[k]);
            let p = a.prev[k] as int;
            assert(a.home[p] >= 0 ==> b.next[p] == a.next[p]);
            assert forall|m: int| 0 <= m < a.len() implies (b.sees(k, m) <==> a.sees(k, m)) && (
            b.alive(m) <==> a.alive(m)) by {}
            if a.alive(k) || a.op[k] >= a.floor {
                assert(a.next_ok(k));
                assert(a.prev_ok(k));
                assert(a.home[p] == t);
            }
            assert(b.alive(k) || b.op[k] >= b.floor ==> b.next_ok(k));
            assert(b.alive(k) || b.op[k] >= b.floor ==> b.prev_ok(k));
        }
    }
    assert forall|t: int| b.linked(t) == a.linked(t) by {
        lemma_linked_below_same(a, b, t, a.len());
    }
}

/// The sentinel is not counted: a list has fewer linked members than the
/// arena has slots.
pub proof fn lemma_linked_below_strict(ch: Chain, s: int, k: int)
    requires
        0 <= k,
    ensures
        ch.linked_below(s, k) <= k,
        0 <= s < k ==> ch.linked_below(s, k) <= k - 1,
    decreases k,
{
    if k > 0 {
        lemma_linked_below_strict(ch, s, k - 1);
    }
}

} // verus!
