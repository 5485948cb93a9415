//! Longest-prefix-match routing over a stride-4 multibit trie whose nodes
//! live in a bump-allocated arena.

use vstd::prelude::*;
use vstd::arithmetic::div_mod::*;
use vstd::arithmetic::power2::*;

verus! {

/// An IPv4 address, most significant byte first.
pub type IPAddr = [u8; 4];

/// Number of address bits that one trie level consumes.
pub const TRIE_BITLEN: u8 = 4;

/// The address read as one 32-bit number.
pub open spec fn ip_value(ip: IPAddr) -> nat {
    (ip[0] as nat) * 16777216 + (ip[1] as nat) * 65536 + (ip[2] as nat) * 256 + (ip[3] as nat)
}

/// The leading `n` bits of the 32-bit number `x`, read as a number.
pub open spec fn top_bits(x: nat, n: nat) -> nat {
    x / pow2((32 - n) as nat)
}

/// The trie depth at which a prefix of `len` bits leaves its next hop: `len`
/// rounded up to a whole number of levels.
pub open spec fn stride_depth(len: nat) -> nat {
    ((len + 3) / 4) * 4
}

/// The address as one 32-bit number, its first byte highest.
pub fn ip_to_u32(ip: &IPAddr) -> (r: u32)
    ensures
        r == ip_value(*ip),
{
    let a: u8 = ip[0];
    let b: u8 = ip[1];
    let c: u8 = ip[2];
    let d: u8 = ip[3];
    assert(((a as u32) << 24 | (b as u32) << 16 | (c as u32) << 8 | (d as u32)) == (a as u32)
        * 16777216 + (b as u32) * 65536 + (c as u32) * 256 + (d as u32)) by (bit_vector);
    (a as u32) << 24 | (b as u32) << 16 | (c as u32) << 8 | (d as u32)
}

/// Whether two addresses are the same, byte by byte.
pub fn ip_eq(a: &IPAddr, b: &IPAddr) -> (r: bool)
    ensures
        r == (*a == *b),
{
    let r = a[0] == b[0] && a[1] == b[1] && a[2] == b[2] && a[3] == b[3];
    proof {
        if r {
            assert(*a =~= *b);
        }
    }
    r
}

/// An address and port rewrite.
pub struct NAT {
    pub addr: IPAddr,
    pub port: u16,
}

/// What the routing decision for a packet can be.
pub enum RoutingLookup {
    Forward { next: Option<IPAddr>, snat: Option<NAT>, dnat: Option<NAT> },
    Local,
}

/// One routing rule: packets whose destination agrees with `prefix` on its
/// first `len` bits go to `next`.
#[derive(Clone, Copy, Debug)]
pub struct Rule {
    pub prefix: IPAddr,
    pub next: IPAddr,
    pub len: u8,
    pub metric: u8,
    pub if_index: u8,
}

impl Rule {
    /// A rule is valid when its prefix length is at most 32.
    pub open spec fn valid(self) -> bool {
        self.len <= 32
    }

    /// Whether the rule's prefix covers `addr`.
    pub open spec fn covers(self, addr: IPAddr) -> bool {
        top_bits(ip_value(addr), self.len as nat) == top_bits(ip_value(self.prefix), self.len as nat)
    }
}

/// Every rule of the sequence is valid.
pub open spec fn rules_valid(rules: Seq<Rule>) -> bool {
    forall|i: int| 0 <= i < rules.len() ==> (#[trigger] rules[i]).valid()
}

/// The rules come in ascending order of prefix length.
pub open spec fn sorted_by_len(rules: Seq<Rule>) -> bool {
    forall|i: int, j: int| 0 <= i <= j < rules.len() ==> rules[i].len <= rules[j].len
}

/// The next hop of the last rule of `rules` that covers `addr` and leaves its
/// next hop at trie depth `depth`.
pub open spec fn best_at(rules: Seq<Rule>, addr: IPAddr, depth: nat) -> Option<IPAddr>
    decreases rules.len(),
{
    if rules.len() == 0 {
        None
    } else {
        let r = rules.last();
        if r.covers(addr) && stride_depth(r.len as nat) == depth {
            Some(r.next)
        } else {
            best_at(rules.drop_last(), addr, depth)
        }
    }
}

/// The answer of the trie restricted to depths `0, 4, .., depth`: the
/// deepest level at which some rule covers `addr` decides.
pub open spec fn route_upto(rules: Seq<Rule>, addr: IPAddr, depth: nat) -> Option<IPAddr>
    decreases depth,
{
    if best_at(rules, addr, depth) is Some {
        best_at(rules, addr, depth)
    } else if depth < 4 {
        None
    } else {
        route_upto(rules, addr, (depth - 4) as nat)
    }
}

/// What a trie built from `rules`, in this order, answers for `addr`.
pub open spec fn route(rules: Seq<Rule>, addr: IPAddr) -> Option<IPAddr> {
    route_upto(rules, addr, 32)
}

/// The index of the last rule of `rules` that covers `addr`.
pub open spec fn last_cover(rules: Seq<Rule>, addr: IPAddr) -> Option<int>
    decreases rules.len(),
{
    if rules.len() == 0 {
        None
    } else if rules.last().covers(addr) {
        Some(rules.len() - 1)
    } else {
        last_cover(rules.drop_last(), addr)
    }
}

/// Where a trie node sits: `depth` address bits above it, whose value is
/// `path`.
pub struct NodeAddr {
    pub depth: nat,
    pub path: nat,
}

/// The address with the given depth and path.
pub open spec fn node_addr(depth: nat, path: nat) -> NodeAddr {
    NodeAddr { depth, path }
}

/// The address of the `k`-th child of the node at `a`.
pub open spec fn child_addr(a: NodeAddr, k: nat) -> NodeAddr {
    NodeAddr { depth: a.depth + 4, path: a.path * 16 + k }
}

/// The node that the walk for the 32-bit number `x` visits at `depth`.
pub open spec fn on_path(x: nat, depth: nat) -> NodeAddr {
    NodeAddr { depth, path: top_bits(x, depth) }
}

/// The four bits of `x` that select the child of a node at `depth`.
pub open spec fn nibble(x: nat, depth: nat) -> nat {
    (x / pow2((28 - depth) as nat)) % 16
}

/// Whether the rule leaves its next hop at the node `a`: the node lies at the
/// rule's stride depth and its path starts with the rule's prefix bits.
pub open spec fn in_target(r: Rule, a: NodeAddr) -> bool {
    &&& a.depth == stride_depth(r.len as nat)
    &&& a.path / pow2((a.depth - r.len) as nat) == top_bits(ip_value(r.prefix), r.len as nat)
}

/// Whether `a` is a node above the rule's targets, on the way from the root.
pub open spec fn in_chain(r: Rule, a: NodeAddr) -> bool {
    &&& a.depth % 4 == 0
    &&& a.depth < stride_depth(r.len as nat)
    &&& a.path == top_bits(ip_value(r.prefix), a.depth)
}

/// Whether the trie of a rule set that holds `r` has a node at `a` on the
/// rule's account.
pub open spec fn needs_node(r: Rule, a: NodeAddr) -> bool {
    in_target(r, a) || in_chain(r, a)
}

/// The address of the root.
pub open spec fn root_addr() -> NodeAddr {
    NodeAddr { depth: 0, path: 0 }
}

/// Whether the trie of `rules` has a node at `a`: the root, and every node
/// that one of the rules needs.
pub open spec fn wanted(rules: Seq<Rule>, a: NodeAddr) -> bool {
    a == root_addr() || exists|n: int| 0 <= n < rules.len() && needs_node(#[trigger] rules[n], a)
}

/// The nodes of the trie of `rules`.
pub open spec fn trie_nodes(rules: Seq<Rule>) -> Set<NodeAddr> {
    Set::new(|a: NodeAddr| wanted(rules, a))
}

/// The value that the node at `a` holds once `rules` were applied in order:
/// the next hop of the last rule that targets it.
pub open spec fn node_value(rules: Seq<Rule>, a: NodeAddr) -> Option<IPAddr>
    decreases rules.len(),
{
    if rules.len() == 0 {
        None
    } else if in_target(rules.last(), a) {
        Some(rules.last().next)
    } else {
        node_value(rules.drop_last(), a)
    }
}

/// One trie node: sixteen child slots, each empty or the arena index of the
/// child, and the next hop that ends here, if any.
#[derive(Clone, Copy)]
pub struct Trie {
    next: [Option<usize>; 16],
    value: Option<IPAddr>,
}

impl Default for Trie {
    fn default() -> (r: Self)
        ensures
            r.is_blank(),
    {
        Trie { next: [None;16], value: None }
    }
}

impl Trie {
    /// A node without children and without a next hop.
    pub closed spec fn is_blank(self) -> bool {
        &&& self.value is None
        &&& forall|k: int| 0 <= k < 16 ==> self.next@[k] is None
    }
}

/// The arena that owns the nodes of one trie. The root, once built, is the
/// node at index 0.
pub struct TrieBuf<const LEN: usize> {
    store: [Trie; LEN],
    ptr: usize,
    addrs: Ghost<Seq<NodeAddr>>,
    parents: Ghost<Seq<int>>,
    rules: Ghost<Seq<Rule>>,
}

impl<const LEN: usize> TrieBuf<LEN> {
    /// The rules that the trie in this arena was built from, in the order in
    /// which they were applied.
    pub closed spec fn rules(&self) -> Seq<Rule> {
        self.rules@
    }

    /// Number of nodes in use.
    pub closed spec fn used(&self) -> nat {
        self.ptr as nat
    }

    /// The root of the trie in this arena, if one was built.
    pub closed spec fn root(&self) -> Option<Trie> {
        if self.ptr > 0 {
            Some(self.store@[0])
        } else {
            None
        }
    }

    spec fn link(&self, i: int, k: int) -> Option<usize> {
        self.store@[i].next@[k]
    }

    spec fn has(&self, a: NodeAddr) -> bool {
        exists|i: int| 0 <= i < self.ptr && self.addrs@[i] == a
    }

    /// The nodes in use form a tree: each has its own address, each link leads
    /// to the node with the child's address, and each node but the root hangs
    /// on its parent.
    spec fn shape_ok(&self) -> bool {
        &&& self.ptr <= LEN
        &&& self.addrs@.len() == self.ptr
        &&& self.parents@.len() == self.ptr
        &&& (self.ptr > 0 ==> self.addrs@[0] == NodeAddr { depth: 0, path: 0 })
        &&& forall|i: int|
            0 <= i < self.ptr ==> (#[trigger] self.addrs@[i]).depth % 4 == 0 && self.addrs@[i].depth
                <= 32
        &&& forall|i: int, j: int|
            0 <= i < self.ptr && 0 <= j < self.ptr && i != j ==> #[trigger] self.addrs@[i]
                != #[trigger] self.addrs@[j]
        &&& forall|i: int, k: int|
            0 <= i < self.ptr && 0 <= k < 16 ==> match #[trigger] self.link(i, k) {
                Some(j) => j < self.ptr && self.addrs@[j as int] == child_addr(
                    self.addrs@[i],
                    k as nat,
                ),
                None => true,
            }
        &&& forall|j: int|
            0 < j < self.ptr ==> {
                let p = #[trigger] self.parents@[j];
                &&& 0 <= p < self.ptr
                &&& self.addrs@[j].depth >= 4
                &&& self.addrs@[j] == child_addr(self.addrs@[p], self.addrs@[j].path % 16)
                &&& self.link(p, (self.addrs@[j].path % 16) as int) == Some(j as usize)
            }
    }

    /// Every node holds the next hop of the last rule of `rules` that targets it.
    spec fn values_ok(&self, rules: Seq<Rule>) -> bool {
        forall|i: int|
            0 <= i < self.ptr ==> (#[trigger] self.store@[i]).value == node_value(
                rules,
                self.addrs@[i],
            )
    }

    /// Every node that a rule of `rules` needs is there.
    spec fn complete(&self, rules: Seq<Rule>) -> bool {
        forall|n: int, a: NodeAddr|
            0 <= n < rules.len() && #[trigger] needs_node(rules[n], a) ==> self.has(a)
    }

    /// Every node is one that the trie of `rules` has.
    spec fn sound(&self, rules: Seq<Rule>) -> bool {
        forall|i: int| 0 <= i < self.ptr ==> wanted(rules, #[trigger] self.addrs@[i])
    }

    /// A node that the rule needs is missing.
    spec fn lacks(&self, r: Rule) -> bool {
        exists|a: NodeAddr| needs_node(r, a) && !self.has(a)
    }

    /// The arena is consistent: it is empty, or it holds exactly the trie of
    /// `self.rules()`.
    pub closed spec fn wf(&self) -> bool {
        &&& self.shape_ok()
        &&& rules_valid(self.rules@)
        &&& self.values_ok(self.rules@)
        &&& self.complete(self.rules@)
        &&& self.sound(self.rules@)
        &&& (self.ptr == 0 ==> self.rules@.len() == 0)
    }

    /// An arena over the given storage, with no node in use.
    pub fn new(store: [Trie; LEN]) -> (r: Self)
        ensures
            r.wf(),
            r.used() == 0,
            r.rules() == Seq::<Rule>::empty(),
            r.root() is None,
    {
        TrieBuf {
            store,
            ptr: 0,
            addrs: Ghost(Seq::empty()),
            parents: Ghost(Seq::empty()),
            rules: Ghost(Seq::empty()),
        }
    }

    /// Gives every node back: the arena is empty again.
    pub fn reset(&mut self)
        ensures
            final(self).wf(),
            final(self).used() == 0,
            final(self).rules() == Seq::<Rule>::empty(),
            final(self).root() is None,
    {
        self.ptr = 0;
        proof {
            self.addrs@ = Seq::empty();
            self.parents@ = Seq::empty();
            self.rules@ = Seq::empty();
        }
    }

    /// Takes the next free node, blank, and records where it will sit. `None`
    /// when the arena is full; nothing changes then.
    fn take_node(&mut self, Ghost(at): Ghost<NodeAddr>, Ghost(parent): Ghost<int>) -> (r: Option<usize>)
        requires
            old(self).ptr <= LEN,
            old(self).addrs@.len() == old(self).ptr,
            old(self).parents@.len() == old(self).ptr,
        ensures
            r is None ==> old(self).ptr == LEN && *final(self) == *old(self),
            r matches Some(n) ==> {
                &&& n == old(self).ptr
                &&& n < LEN
                &&& final(self).ptr == n + 1
                &&& final(self).addrs@ == old(self).addrs@.push(at)
                &&& final(self).parents@ == old(self).parents@.push(parent)
                &&& final(self).rules@ == old(self).rules@
                &&& final(self).store@[n as int].is_blank()
                &&& forall|i: int|
                    0 <= i < LEN && i != n ==> final(self).store@[i] == old(self).store@[i]
            },
    {
        if self.ptr >= LEN {
            return None;
        }
        let n = self.ptr;
        self.store[n].value = None;
        self.store[n].next = [None;16];
        self.ptr = n + 1;
        proof {
            self.addrs@ = self.addrs@.push(at);
            self.parents@ = self.parents@.push(parent);
        }
        Some(n)
    }
}

/// Dropping trailing bits twice is dropping them once.
pub proof fn lemma_top_bits_shrink(x: nat, len: nat, d: nat)
    requires
        len <= d <= 32,
    ensures
        top_bits(x, d) / pow2((d - len) as nat) == top_bits(x, len),
{
    let a = pow2((32 - d) as nat);
    let b = pow2((d - len) as nat);
    lemma_pow2_pos((32 - d) as nat);
    lemma_pow2_pos((d - len) as nat);
    lemma_pow2_adds((32 - d) as nat, (d - len) as nat);
    lemma_div_denominator(x as int, a as int, b as int);
}

/// One level down the walk for `x` leads to the child that the next four
/// bits select.
pub proof fn lemma_path_step(x: nat, d: nat)
    requires
        d <= 28,
    ensures
        child_addr(on_path(x, d), nibble(x, d)) == on_path(x, d + 4),
        nibble(x, d) < 16,
{
    let a = pow2((28 - d) as nat);
    lemma_pow2_pos((28 - d) as nat);
    lemma_pow2_adds((28 - d) as nat, 4);
    lemma2_to64();
    lemma_div_denominator(x as int, a as int, 16);
    let q = x as int / a as int;
    lemma_fundamental_div_mod(q, 16);
}

/// The node on the walk for `addr` at a rule's stride depth is one of the
/// rule's targets exactly when the rule covers `addr`.
pub proof fn lemma_target_on_path(r: Rule, addr: IPAddr, d: nat)
    requires
        r.valid(),
    ensures
        in_target(r, on_path(ip_value(addr), d)) <==> (r.covers(addr) && stride_depth(r.len as nat)
            == d),
{
    if stride_depth(r.len as nat) == d {
        lemma_top_bits_shrink(ip_value(addr), r.len as nat, d);
    }
}

/// A rule that covers `addr` needs every node on the walk for `addr` down to
/// its stride depth.
pub proof fn lemma_cover_needs_path(r: Rule, addr: IPAddr, d: nat)
    requires
        r.valid(),
        r.covers(addr),
        d % 4 == 0,
        d <= stride_depth(r.len as nat),
    ensures
        needs_node(r, on_path(ip_value(addr), d)),
{
    if d == stride_depth(r.len as nat) {
        lemma_target_on_path(r, addr, d);
    } else {
        assert(d <= r.len);
        lemma_top_bits_shrink(ip_value(addr), d, r.len as nat);
        lemma_top_bits_shrink(ip_value(r.prefix), d, r.len as nat);
    }
}

/// What a node on the walk for `addr` holds is what the rules say for its
/// depth.
pub proof fn lemma_value_on_path(rules: Seq<Rule>, addr: IPAddr, d: nat)
    requires
        rules_valid(rules),
    ensures
        node_value(rules, on_path(ip_value(addr), d)) == best_at(rules, addr, d),
    decreases rules.len(),
{
    if rules.len() > 0 {
        lemma_target_on_path(rules.last(), addr, d);
        lemma_value_on_path(rules.drop_last(), addr, d);
    }
}

/// No rule that covers `addr` at depth `d` means no answer at depth `d`.
pub proof fn lemma_best_at_none(rules: Seq<Rule>, addr: IPAddr, d: nat)
    requires
        forall|n: int|
            0 <= n < rules.len() ==> !((#[trigger] rules[n]).covers(addr) && stride_depth(
                rules[n].len as nat,
            ) == d),
    ensures
        best_at(rules, addr, d) is None,
    decreases rules.len(),
{
    if rules.len() > 0 {
        assert(rules.last() == rules[rules.len() - 1]);
        assert forall|n: int| 0 <= n < rules.drop_last().len() implies !((
        #[trigger] rules.drop_last()[n]).covers(addr) && stride_depth(
            rules.drop_last()[n].len as nat,
        ) == d) by {
            assert(rules.drop_last()[n] == rules[n]);
        }
        lemma_best_at_none(rules.drop_last(), addr, d);
    }
}

/// Where no level from `lo` to `hi` answers, the walk to `hi` answers what
/// the walk to `lo - 4` answers.
pub proof fn lemma_route_skip(rules: Seq<Rule>, addr: IPAddr, lo: nat, hi: nat)
    requires
        lo % 4 == 0,
        hi % 4 == 0,
        4 <= lo,
        lo <= hi + 4,
        forall|d: nat| lo <= d <= hi && d % 4 == 0 ==> #[trigger] best_at(rules, addr, d) is None,
    ensures
        route_upto(rules, addr, hi) == route_upto(rules, addr, (lo - 4) as nat),
    decreases hi,
{
    if hi >= lo {
        lemma_route_skip(rules, addr, lo, (hi - 4) as nat);
    }
}

impl<const LEN: usize> TrieBuf<LEN> {
    /// A free child slot means that no node sits at the child's address.
    proof fn lemma_no_link_no_node(&self, node: int, k: int)
        requires
            self.shape_ok(),
            0 <= node < self.ptr,
            0 <= k < 16,
            self.link(node, k) is None,
        ensures
            !self.has(child_addr(self.addrs@[node], k as nat)),
    {
        let c = child_addr(self.addrs@[node], k as nat);
        if self.has(c) {
            let j = choose|j: int| 0 <= j < self.ptr && self.addrs@[j] == c;
            assert(self.addrs@[0].depth == 0);
            assert(j > 0);
            let p = self.parents@[j];
            assert(self.addrs@[p].path == self.addrs@[node].path);
            assert(self.addrs@[p] == self.addrs@[node]);
            assert(p == node);
            assert(false);
        }
    }

    /// The `k`-th child of `node`; it is made first where it is missing.
    /// `None` when that needs a node and the arena is full.
    fn child(&mut self, node: usize, k: usize) -> (r: Option<usize>)
        requires
            old(self).shape_ok(),
            node < old(self).ptr,
            k < 16,
            old(self).addrs@[node as int].depth <= 28,
        ensures
            final(self).rules@ == old(self).rules@,
            r is None ==> *final(self) == *old(self) && old(self).ptr == LEN && !old(self).has(
                child_addr(old(self).addrs@[node as int], k as nat),
            ),
            r matches Some(c) ==> {
                &&& final(self).shape_ok()
                &&& c < final(self).ptr
                &&& final(self).addrs@[c as int] == child_addr(
                    old(self).addrs@[node as int],
                    k as nat,
                )
                &&& old(self).ptr <= final(self).ptr <= old(self).ptr + 1
                &&& forall|i: int|
                    0 <= i < old(self).ptr ==> #[trigger] final(self).addrs@[i] == old(
                        self,
                    ).addrs@[i]
                &&& forall|i: int|
                    0 <= i < old(self).ptr ==> (#[trigger] final(self).store@[i]).value == old(
                        self,
                    ).store@[i].value
                &&& final(self).ptr > old(self).ptr ==> {
                    &&& c == old(self).ptr
                    &&& final(self).store@[c as int].value is None
                    &&& !old(self).has(final(self).addrs@[c as int])
                }
            },
    {
        match self.store[node].next[k] {
            Some(c) => {
                assert(self.link(node as int, k as int) == Some(c));
                Some(c)
            },
            None => {
                let ghost at = child_addr(self.addrs@[node as int], k as nat);
                proof {
                    assert(self.link(node as int, k as int) is None);
                    self.lemma_no_link_no_node(node as int, k as int);
                }
                match self.take_node(Ghost(at), Ghost(node as int)) {
                    None => None,
                    Some(c) => {
                        self.store[node].next[k] = Some(c);
                        proof {
                            let pre = *old(self);
                            assert forall|i: int, kk: int|
                                0 <= i < self.ptr && 0 <= kk < 16 implies match #[trigger] self.link(
                                i,
                                kk,
                            ) {
                                Some(j) => j < self.ptr && self.addrs@[j as int] == child_addr(
                                    self.addrs@[i],
                                    kk as nat,
                                ),
                                None => true,
                            } by {
                                if i == node as int && kk == k as int {
                                } else if i == c as int {
                                    assert(self.link(i, kk) is None);
                                } else if i == node as int {
                                    assert(self.link(i, kk) == pre.link(i, kk));
                                } else {
                                    assert(self.link(i, kk) == pre.link(i, kk));
                                }
                            }
                            assert forall|j: int| 0 < j < self.ptr implies {
                                let p = #[trigger] self.parents@[j];
                                &&& 0 <= p < self.ptr
                                &&& self.addrs@[j].depth >= 4
                                &&& self.addrs@[j] == child_addr(
                                    self.addrs@[p],
                                    self.addrs@[j].path % 16,
                                )
                                &&& self.link(p, (self.addrs@[j].path % 16) as int) == Some(
                                    j as usize,
                                )
                            } by {
                                if j == c as int {
                                } else {
                                    let p = pre.parents@[j];
                                    let kk = (pre.addrs@[j].path % 16) as int;
                                    assert(pre.link(p, kk) == Some(j as usize));
                                    assert(self.link(p, kk) == pre.link(p, kk));
                                }
                            }
                            assert forall|i: int, j: int|
                                0 <= i < self.ptr && 0 <= j < self.ptr && i != j implies #[trigger] self.addrs@[i]
                                != #[trigger] self.addrs@[j] by {
                                if i == c as int {
                                    assert(pre.addrs@[j] == self.addrs@[j]);
                                } else if j == c as int {
                                    assert(pre.addrs@[i] == self.addrs@[i]);
                                } else {
                                    assert(pre.addrs@[i] == self.addrs@[i]);
                                    assert(pre.addrs@[j] == self.addrs@[j]);
                                }
                            }
                        }
                        Some(c)
                    },
                }
            },
        }
    }
}

/// The four bits of `x` below the leading `depth` bits.
fn nibble_at(x: u32, depth: u8) -> (r: usize)
    requires
        depth <= 28,
    ensures
        r == nibble(x as nat, depth as nat),
        r < 16,
{
    let shift: u32 = 32 - (TRIE_BITLEN as u32) - (depth as u32);
    let r = (x >> shift) & 15;
    proof {
        vstd::bits::lemma_u32_shr_is_div(x, shift);
        let q = x >> shift;
        assert(q & 15 == q % 16) by (bit_vector);
    }
    r as usize
}

impl Trie {
    /// Builds in `store`, from scratch, the trie of `rules` applied in the
    /// order given, and returns its root. `None` exactly when the arena has
    /// fewer nodes than the trie; it is left empty then.
    ///
    /// For longest-prefix answers the rules must come in ascending order of
    /// length: see `lemma_route_is_longest_match`.
    pub fn from_rules<const LEN: usize>(store: &mut TrieBuf<LEN>, rules: &[Rule]) -> (r: Option<
        Trie,
    >)
        requires
            rules_valid(rules@),
        ensures
            final(store).wf(),
            r matches Some(root) ==> final(store).root() == Some(root) && final(store).rules()
                == rules@,
            r is None ==> final(store).root() is None && final(store).rules() == Seq::<
                Rule,
            >::empty(),
            r is Some <==> trie_nodes(rules@).len() <= LEN,
            1 + 15 * rules@.len() <= LEN ==> r is Some,
    {
        store.reset();
        let root = store.take_node(Ghost(NodeAddr { depth: 0, path: 0 }), Ghost(0));
        if root.is_none() {
            proof {
                lemma_trie_nodes_finite(rules@);
                let one = Set::<NodeAddr>::empty().insert(root_addr());
                assert(one.subset_of(trie_nodes(rules@)));
                vstd::set_lib::lemma_len_subset(one, trie_nodes(rules@));
            }
            return None;
        }
        assert(store.wf()) by {
            assert(store.store@[0].is_blank());
        }
        assert(store.rules@ =~= rules@.subrange(0, 0));
        let mut i: usize = 0;
        while i < rules.len()
            invariant
                0 <= i <= rules@.len(),
                rules_valid(rules@),
                store.wf(),
                store.ptr > 0,
                store.ptr <= 1 + 15 * i,
                store.rules@ == rules@.subrange(0, i as int),
            decreases rules@.len() - i,
        {
            let ok = Trie::apply_rule(store, &rules[i]);
            if !ok {
                proof {
                    assert(rules@.subrange(0, i as int).push(rules@[i as int]) == rules@.subrange(
                        0,
                        i + 1,
                    ));
                    store.lemma_too_small(rules@, i as int);
                }
                store.reset();
                return None;
            }
            proof {
                assert(rules@.subrange(0, i as int).push(rules@[i as int]) == rules@.subrange(
                    0,
                    i + 1,
                ));
            }
            i = i + 1;
        }
        proof {
            assert(rules@.subrange(0, i as int) == rules@);
            store.lemma_fits();
        }
        Some(store.store[0])
    }

    /// Adds one rule to the trie in `store`. `false` when the arena ran out
    /// of nodes on the way; the trie is unusable then.
    fn apply_rule<const LEN: usize>(store: &mut TrieBuf<LEN>, rule: &Rule) -> (ok: bool)
        requires
            old(store).wf(),
            old(store).ptr > 0,
            rule.valid(),
        ensures
            ok ==> {
                &&& final(store).wf()
                &&& final(store).rules@ == old(store).rules@.push(*rule)
                &&& old(store).ptr <= final(store).ptr <= old(store).ptr + 15
            },
            !ok ==> {
                &&& final(store).ptr == LEN
                &&& LEN < old(store).ptr + 15
                &&& final(store).shape_ok()
                &&& final(store).sound(old(store).rules@.push(*rule))
                &&& final(store).lacks(*rule)
            },
    {
        proof {
            store.lemma_sound_more(store.rules@, store.rules@.push(*rule));
        }
        match store.descend(rule) {
            None => false,
            Some((node, depth)) => {
                if rule.len - depth == 0 {
                    store.settle(node, rule);
                    true
                } else {
                    store.expand(node, depth, rule)
                }
            },
        }
    }

    /// The next hop for `addr`: that of the deepest node with a next hop on
    /// the walk from this root along the address bits, four at a time.
    pub fn lookup<const LEN: usize>(&self, store: &TrieBuf<LEN>, addr: &IPAddr) -> (r: Option<
        IPAddr,
    >)
        requires
            store.wf(),
            store.root() == Some(*self),
        ensures
            r == route(store.rules(), *addr),
    {
        self.inner_lookup(store, addr)
    }

    fn inner_lookup<const LEN: usize>(&self, store: &TrieBuf<LEN>, addr: &IPAddr) -> (r: Option<
        IPAddr,
    >)
        requires
            store.wf(),
            store.root() == Some(*self),
        ensures
            r == route(store.rules(), *addr),
    {
        let x = ip_to_u32(addr);
        let ghost rules = store.rules@;
        let ghost xv = ip_value(*addr);
        let mut node: Trie = *self;
        let ghost mut cur: int = 0;
        let mut best: Option<IPAddr> = node.value;
        let mut depth: u8 = 0;
        proof {
            lemma2_to64();
            lemma2_to64_rest();
            lemma_basic_div(xv as int, pow2(32) as int);
            assert(on_path(xv, 0) == NodeAddr { depth: 0, path: 0 });
            lemma_value_on_path(rules, *addr, 0);
        }
        while depth < 32
            invariant
                store.wf(),
                rules == store.rules@,
                xv == ip_value(*addr),
                x == xv,
                depth % 4 == 0,
                depth <= 32,
                0 <= cur < store.ptr,
                node == store.store@[cur],
                store.addrs@[cur] == on_path(xv, depth as nat),
                best == route_upto(rules, *addr, depth as nat),
            decreases 32 - depth,
        {
            let k = nibble_at(x, depth);
            proof {
                lemma_path_step(xv, depth as nat);
            }
            match node.next[k] {
                None => {
                    proof {
                        assert(store.link(cur, k as int) is None);
                        store.lemma_no_link_no_node(cur, k as int);
                        store.lemma_nothing_below(*addr, (depth + 4) as nat);
                        lemma_route_skip(rules, *addr, (depth + 4) as nat, 32);
                    }
                    return best;
                },
                Some(c) => {
                    proof {
                        assert(store.link(cur, k as int) == Some(c));
                        cur = c as int;
                        lemma_value_on_path(rules, *addr, (depth + 4) as nat);
                    }
                    node = store.store[c];
                    if node.value.is_some() {
                        best = node.value;
                    }
                    depth = depth + TRIE_BITLEN;
                },
            }
        }
        best
    }
}

impl<const LEN: usize> TrieBuf<LEN> {
    /// After `child`, what held of the nodes and the rules still holds.
    proof fn lemma_grown(self, after: Self, rules: Seq<Rule>)
        requires
            self.shape_ok(),
            self.values_ok(rules),
            self.complete(rules),
            after.shape_ok(),
            self.ptr <= after.ptr <= self.ptr + 1,
            forall|i: int| 0 <= i < self.ptr ==> #[trigger] after.addrs@[i] == self.addrs@[i],
            forall|i: int|
                0 <= i < self.ptr ==> (#[trigger] after.store@[i]).value == self.store@[i].value,
            after.ptr > self.ptr ==> after.store@[self.ptr as int].value is None && !self.has(
                after.addrs@[self.ptr as int],
            ),
        ensures
            after.values_ok(rules),
            after.complete(rules),
            forall|a: NodeAddr| self.has(a) ==> after.has(a),
    {
        self.lemma_grown_nodes(after, rules);
        assert forall|i: int| 0 <= i < after.ptr implies (#[trigger] after.store@[i]).value
            == node_value(rules, after.addrs@[i]) by {
            if i < self.ptr {
                assert(after.addrs@[i] == self.addrs@[i]);
                assert(self.store@[i].value == node_value(rules, self.addrs@[i]));
            } else {
                self.lemma_untargeted(rules, after.addrs@[i], rules.len() as int);
            }
        }
    }

    /// The shape depends on the links and the addresses alone.
    proof fn lemma_shape_kept(self, after: Self)
        requires
            self.shape_ok(),
            after.ptr == self.ptr,
            after.addrs@ == self.addrs@,
            after.parents@ == self.parents@,
            forall|i: int| 0 <= i < self.ptr ==> (#[trigger] after.store@[i]).next == self.store@[i].next,
        ensures
            after.shape_ok(),
    {
        assert forall|i: int, k: int|
            0 <= i < after.ptr && 0 <= k < 16 implies match #[trigger] after.link(i, k) {
            Some(j) => j < after.ptr && after.addrs@[j as int] == child_addr(
                after.addrs@[i],
                k as nat,
            ),
            None => true,
        } by {
            assert(after.store@[i].next == self.store@[i].next);
            assert(after.link(i, k) == self.link(i, k));
        }
        assert forall|j: int| 0 < j < after.ptr implies {
            let p = #[trigger] after.parents@[j];
            &&& 0 <= p < after.ptr
            &&& after.addrs@[j].depth >= 4
            &&& after.addrs@[j] == child_addr(after.addrs@[p], after.addrs@[j].path % 16)
            &&& after.link(p, (after.addrs@[j].path % 16) as int) == Some(j as usize)
        } by {
            let p = self.parents@[j];
            assert(after.store@[p].next == self.store@[p].next);
            assert(after.link(p, (after.addrs@[j].path % 16) as int) == self.link(
                p,
                (self.addrs@[j].path % 16) as int,
            ));
        }
    }

    /// Growing the arena keeps every node that was there.
    proof fn lemma_grown_nodes(self, after: Self, rules: Seq<Rule>)
        requires
            self.complete(rules),
            self.ptr <= after.ptr,
            self.addrs@.len() == self.ptr,
            after.addrs@.len() == after.ptr,
            forall|i: int| 0 <= i < self.ptr ==> #[trigger] after.addrs@[i] == self.addrs@[i],
        ensures
            after.complete(rules),
            forall|a: NodeAddr| self.has(a) ==> after.has(a),
    {
        assert forall|a: NodeAddr| self.has(a) implies after.has(a) by {
            let w = choose|w: int| 0 <= w < self.ptr && self.addrs@[w] == a;
            assert(after.addrs@[w] == a);
        }
    }

    /// An address without a node is the target of none of the rules.
    proof fn lemma_untargeted(self, rules: Seq<Rule>, a: NodeAddr, n: int)
        requires
            self.complete(rules),
            !self.has(a),
            0 <= n <= rules.len(),
        ensures
            node_value(rules.subrange(0, n), a) is None,
            n == rules.len() ==> node_value(rules, a) is None,
        decreases n,
    {
        let sub = rules.subrange(0, n);
        if n > 0 {
            assert(sub.last() == rules[n - 1]);
            assert(!needs_node(rules[n - 1], a));
            assert(sub.drop_last() == rules.subrange(0, n - 1));
            self.lemma_untargeted(rules, a, n - 1);
        }
        if n == rules.len() {
            assert(sub == rules);
        }
    }

    /// Where the walk for `addr` finds no node at depth `d`, no rule covers
    /// `addr` at depth `d` or below.
    proof fn lemma_nothing_below(self, addr: IPAddr, d: nat)
        requires
            self.wf(),
            d % 4 == 0,
            4 <= d <= 32,
            !self.has(on_path(ip_value(addr), d)),
        ensures
            forall|e: nat|
                d <= e <= 32 && e % 4 == 0 ==> #[trigger] best_at(self.rules@, addr, e) is None,
    {
        let rules = self.rules@;
        assert forall|e: nat| d <= e <= 32 && e % 4 == 0 implies #[trigger] best_at(
            rules,
            addr,
            e,
        ) is None by {
            assert forall|n: int| 0 <= n < rules.len() implies !((#[trigger] rules[n]).covers(addr)
                && stride_depth(rules[n].len as nat) == e) by {
                if rules[n].covers(addr) && stride_depth(rules[n].len as nat) == e {
                    lemma_cover_needs_path(rules[n], addr, d);
                    assert(needs_node(rules[n], on_path(ip_value(addr), d)));
                }
            }
            lemma_best_at_none(rules, addr, e);
        }
    }
}

/// Rounding `pp * 16 + k` down to a multiple of a divisor `c` of 16 rounds
/// `k` alone.
proof fn lemma_scaled_div(pp: int, k: int, c: int, m: int)
    requires
        0 <= pp,
        0 <= k,
        0 < c,
        c * m == 16,
    ensures
        ((pp * 16 + k) / c) * c == pp * 16 + (k / c) * c,
{
    lemma_hoist_over_denominator(k, pp * m, c as nat);
    assert(pp * m * c == pp * 16) by (nonlinear_arith)
        requires
            c * m == 16,
    ;
    let q = k / c;
    assert((q + pp * m) * c == q * c + pp * 16) by (nonlinear_arith)
        requires
            pp * m * c == pp * 16,
    ;
}

/// The targets of a rule whose prefix ends inside a level are the children,
/// `count` in a row from `lo` on, of the last node of its chain.
pub proof fn lemma_target_range(r: Rule, depth: nat, a: NodeAddr)
    requires
        r.valid(),
        depth % 4 == 0,
        depth < r.len < depth + 4,
    ensures
        ({
            let x = ip_value(r.prefix);
            let count = pow2((depth + 4 - r.len) as nat);
            let lo = top_bits(x, depth) * 16 + (nibble(x, depth) / count) * count;
            &&& stride_depth(r.len as nat) == depth + 4
            &&& (count == 2 || count == 4 || count == 8)
            &&& in_target(r, a) <==> (a.depth == depth + 4 && lo <= a.path < lo + count)
        }),
{
    let x = ip_value(r.prefix);
    let filled = (depth + 4 - r.len) as nat;
    let count = pow2(filled);
    let k = nibble(x, depth);
    let pp = top_bits(x, depth);
    let lo = pp * 16 + (k / count) * count;
    let t = top_bits(x, r.len as nat);
    lemma2_to64();
    lemma_path_step(x, depth);
    lemma_top_bits_shrink(x, r.len as nat, depth + 4);
    assert(t == (pp * 16 + k) / count);
    assert(count == 2 || count == 4 || count == 8);
    assert(lo == t * count) by {
        let m: int = if count == 2 {
            8
        } else if count == 4 {
            4
        } else {
            2
        };
        lemma_scaled_div(pp as int, k as int, count as int, m);
    }
    if a.depth == depth + 4 {
        let q = a.path / count;
        lemma_fundamental_div_mod(a.path as int, count as int);
        if q == t {
        } else if q < t {
            assert(q * count <= (t - 1) * count) by (nonlinear_arith)
                requires
                    q <= t - 1,
                    count > 0,
            ;
        } else {
            assert(q * count >= (t + 1) * count) by (nonlinear_arith)
                requires
                    q >= t + 1,
                    count > 0,
            ;
        }
    }
}

impl<const LEN: usize> TrieBuf<LEN> {
    /// The arena holds the trie of `rules`, whatever it records itself.
    spec fn holds(&self, rules: Seq<Rule>) -> bool {
        &&& self.shape_ok()
        &&& self.values_ok(rules)
        &&& self.complete(rules)
        &&& rules_valid(rules)
        &&& self.rules@ == rules
        &&& self.ptr > 0
    }

    /// Every node of the rule's chain down to `depth` is there.
    spec fn chain_to(&self, x: nat, depth: nat) -> bool {
        forall|d: nat| d % 4 == 0 && d <= depth ==> self.has(#[trigger] on_path(x, d))
    }

    /// Walks from the root down the levels that the rule's prefix fills
    /// whole, making the nodes that are missing, and returns the last node
    /// with its depth.
    fn descend(&mut self, rule: &Rule) -> (r: Option<(usize, u8)>)
        requires
            old(self).holds(old(self).rules@),
            old(self).sound(old(self).rules@.push(*rule)),
            rule.valid(),
        ensures
            r is None ==> {
                &&& final(self).ptr == LEN
                &&& LEN <= old(self).ptr + 7
                &&& final(self).shape_ok()
                &&& final(self).sound(old(self).rules@.push(*rule))
                &&& final(self).lacks(*rule)
            },
            r matches Some((node, depth)) ==> {
                &&& final(self).sound(old(self).rules@.push(*rule))
                &&& final(self).holds(old(self).rules@)
                &&& node < final(self).ptr
                &&& depth % 4 == 0
                &&& depth <= rule.len < depth + 4
                &&& final(self).addrs@[node as int] == on_path(
                    ip_value(rule.prefix),
                    depth as nat,
                )
                &&& final(self).chain_to(ip_value(rule.prefix), depth as nat)
                &&& old(self).ptr <= final(self).ptr <= old(self).ptr + depth / 4
            },
    {
        let ghost rules0 = self.rules@;
        let prefix = ip_to_u32(&rule.prefix);
        let ghost x = ip_value(rule.prefix);
        let mut node: usize = 0;
        let mut depth: u8 = 0;
        proof {
            lemma2_to64();
            lemma_basic_div(x as int, pow2(32) as int);
        }
        while rule.len - depth >= TRIE_BITLEN
            invariant
                rule.valid(),
                depth % 4 == 0,
                depth <= rule.len,
                self.holds(rules0),
                self.sound(rules0.push(*rule)),
                rules0 == old(self).rules@,
                x == ip_value(rule.prefix),
                prefix == x,
                node < self.ptr,
                self.addrs@[node as int] == on_path(x, depth as nat),
                old(self).ptr <= self.ptr <= old(self).ptr + depth / 4,
                self.chain_to(x, depth as nat),
            decreases rule.len - depth,
        {
            let k = nibble_at(prefix, depth);
            let ghost before = *self;
            proof {
                lemma_path_step(x, depth as nat);
                lemma_on_path_needed(*rule, (depth + 4) as nat);
            }
            match self.child(node, k) {
                None => {
                    proof {
                        assert(needs_node(*rule, on_path(x, (depth + 4) as nat)));
                    }
                    return None;
                },
                Some(c) => {
                    proof {
                        lemma_path_step(x, depth as nat);
                        before.lemma_grown(*self, rules0);
                        before.lemma_sound_grown(*self, rules0.push(*rule), *rule);
                        assert forall|d: nat| d % 4 == 0 && d <= depth + 4 implies self.has(
                            #[trigger] on_path(x, d),
                        ) by {
                            if d <= depth {
                                assert(before.has(on_path(x, d)));
                            } else {
                                assert(d == depth + 4);
                                assert(self.addrs@[c as int] == on_path(x, d));
                            }
                        }
                    }
                    node = c;
                    depth = depth + TRIE_BITLEN;
                },
            }
        }
        Some((node, depth))
    }

    /// Records the next hop of a rule whose prefix ends exactly at `node`.
    fn settle(&mut self, node: usize, rule: &Rule)
        requires
            old(self).holds(old(self).rules@),
            rule.valid(),
            rule.len % 4 == 0,
            node < old(self).ptr,
            old(self).addrs@[node as int] == on_path(ip_value(rule.prefix), rule.len as nat),
            old(self).chain_to(ip_value(rule.prefix), rule.len as nat),
            old(self).sound(old(self).rules@.push(*rule)),
        ensures
            final(self).wf(),
            final(self).rules@ == old(self).rules@.push(*rule),
            final(self).ptr == old(self).ptr,
    {
        let ghost rules0 = self.rules@;
        let ghost x = ip_value(rule.prefix);
        self.store[node].value = Some(rule.next);
        proof {
            self.rules@ = rules0.push(*rule);
            let pre = *old(self);
            let rules1 = rules0.push(*rule);
            assert(rules1.drop_last() == rules0);
            assert(rules1.last() == *rule);
            assert(stride_depth(rule.len as nat) == rule.len);
            lemma2_to64();
            let na = self.addrs@[node as int];
            assert(na.path / 1 == na.path);
            assert(in_target(*rule, na));
            assert forall|a: NodeAddr| in_target(*rule, a) implies a == na by {
                assert(a.path / 1 == a.path);
            }
            assert forall|i: int| 0 <= i < self.ptr implies (#[trigger] self.store@[i]).value
                == node_value(rules1, self.addrs@[i]) by {
                if i != node as int {
                    assert(self.addrs@[i] != na);
                    assert(self.store@[i] == pre.store@[i]);
                }
            }
            assert forall|a: NodeAddr| pre.has(a) implies self.has(a) by {
                let w = choose|w: int| 0 <= w < pre.ptr && pre.addrs@[w] == a;
                assert(self.addrs@[w] == a);
            }
            assert forall|n: int, a: NodeAddr|
                0 <= n < rules1.len() && #[trigger] needs_node(rules1[n], a) implies self.has(
                a,
            ) by {
                if n < rules0.len() {
                    assert(rules1[n] == rules0[n]);
                    assert(needs_node(rules0[n], a));
                    assert(pre.has(a));
                } else {
                    if in_target(*rule, a) {
                        assert(a == na);
                    } else {
                        assert(a == on_path(x, a.depth));
                        assert(pre.has(on_path(x, a.depth)));
                    }
                }
            }
            pre.lemma_shape_kept(*self);
            assert(rules_valid(rules1)) by {
                assert forall|i: int| 0 <= i < rules1.len() implies (#[trigger] rules1[i]).valid() by {
                    if i < rules0.len() {
                        assert(rules1[i] == rules0[i]);
                    }
                }
            }
        }
    }
}

impl<const LEN: usize> TrieBuf<LEN> {
    /// The state while the children `lo .. lo + done` below depth `depth`
    /// already hold the next hop `next` and nothing else has changed since
    /// the trie held `rules`.
    spec fn filling(&self, rules: Seq<Rule>, depth: nat, lo: nat, done: nat, next: IPAddr) -> bool {
        &&& self.shape_ok()
        &&& self.complete(rules)
        &&& rules_valid(rules)
        &&& self.rules@ == rules
        &&& self.ptr > 0
        &&& forall|q: nat| lo <= q < lo + done ==> self.has(#[trigger] node_addr(depth + 4, q))
        &&& forall|n: int|
            0 <= n < self.ptr ==> (#[trigger] self.store@[n]).value == (if self.addrs@[n].depth
                == depth + 4 && lo <= self.addrs@[n].path < lo + done {
                Some(next)
            } else {
                node_value(rules, self.addrs@[n])
            })
    }

    /// Gives one more child, the one at `lo + done`, the next hop.
    fn fill_child(
        &mut self,
        node: usize,
        idx: usize,
        next: IPAddr,
        Ghost(rules): Ghost<Seq<Rule>>,
        Ghost(lo): Ghost<nat>,
        Ghost(done): Ghost<nat>,
        Ghost(x): Ghost<nat>,
        Ghost(all): Ghost<Seq<Rule>>,
    ) -> (ok: bool)
        requires
            old(self).sound(all),
            wanted(all, node_addr(old(self).addrs@[node as int].depth + 4, lo + done)),
            node < old(self).ptr,
            idx < 16,
            old(self).addrs@[node as int].depth <= 28,
            old(self).filling(rules, old(self).addrs@[node as int].depth, lo, done, next),
            old(self).chain_to(x, old(self).addrs@[node as int].depth),
            lo + done == old(self).addrs@[node as int].path * 16 + idx,
        ensures
            !ok ==> final(self).ptr == LEN && *final(self) == *old(self) && !old(self).has(
                node_addr(old(self).addrs@[node as int].depth + 4, lo + done),
            ),
            ok ==> {
                &&& final(self).sound(all)
                &&& final(self).filling(
                    rules,
                    old(self).addrs@[node as int].depth,
                    lo,
                    done + 1,
                    next,
                )
                &&& final(self).chain_to(x, old(self).addrs@[node as int].depth)
                &&& final(self).addrs@[node as int] == old(self).addrs@[node as int]
                &&& old(self).ptr <= final(self).ptr <= old(self).ptr + 1
            },
    {
        let ghost before = *self;
        let ghost depth = self.addrs@[node as int].depth;
        match self.child(node, idx) {
            None => {
                proof {
                    assert(child_addr(self.addrs@[node as int], idx as nat) == node_addr(
                        depth + 4,
                        lo + done,
                    ));
                }
                false
            },
            Some(c) => {
                let ghost mid = *self;
                self.store[c].value = Some(next);
                proof {
                    before.lemma_grown_nodes(mid, rules);
                    assert(mid.addrs@ == self.addrs@);
                    let ca = node_addr(depth + 4, lo + done);
                    assert(self.addrs@[c as int] == ca);
                    assert forall|i: int| 0 <= i < self.ptr implies wanted(
                        all,
                        #[trigger] self.addrs@[i],
                    ) by {
                        if i < before.ptr {
                            assert(self.addrs@[i] == before.addrs@[i]);
                        }
                    }
                    assert forall|a: NodeAddr| before.has(a) implies self.has(a) by {
                        assert(mid.has(a));
                        let w = choose|w: int| 0 <= w < mid.ptr && mid.addrs@[w] == a;
                        assert(self.addrs@[w] == a);
                    }
                    assert forall|d: nat| d % 4 == 0 && d <= depth implies self.has(
                        #[trigger] on_path(x, d),
                    ) by {
                        assert(before.has(on_path(x, d)));
                    }
                    assert forall|q: nat| lo <= q < lo + done + 1 implies self.has(
                        #[trigger] node_addr(depth + 4, q),
                    ) by {
                        let qa = node_addr(depth + 4, q);
                        if q < lo + done {
                            assert(before.has(qa));
                        } else {
                            assert(self.addrs@[c as int] == qa);
                        }
                    }
                    assert forall|n: int| 0 <= n < self.ptr implies (#[trigger] self.store@[n]).value
                        == (if self.addrs@[n].depth == depth + 4 && lo <= self.addrs@[n].path < lo
                        + done + 1 {
                        Some(next)
                    } else {
                        node_value(rules, self.addrs@[n])
                    }) by {
                        if n == c as int {
                        } else {
                            assert(self.addrs@[n] != self.addrs@[c as int]);
                            assert(self.store@[n] == mid.store@[n]);
                            if n < before.ptr {
                                assert(mid.store@[n].value == before.store@[n].value);
                                assert(mid.addrs@[n] == before.addrs@[n]);
                            } else {
                                assert(!before.has(ca));
                                before.lemma_untargeted(rules, ca, rules.len() as int);
                            }
                        }
                    }
                    assert(self.complete(rules)) by {
                        assert forall|n: int, a: NodeAddr|
                            0 <= n < rules.len() && #[trigger] needs_node(
                                rules[n],
                                a,
                            ) implies self.has(a) by {
                            assert(before.has(a));
                        }
                    }
                    mid.lemma_shape_kept(*self);
                }
                true
            },
        }
    }

    /// Applies a rule whose prefix ends inside the level below `node`: every
    /// child whose index starts with the prefix's remaining bits gets the
    /// next hop.
    fn expand(&mut self, node: usize, depth: u8, rule: &Rule) -> (ok: bool)
        requires
            old(self).holds(old(self).rules@),
            rule.valid(),
            depth % 4 == 0,
            depth < rule.len < depth + 4,
            node < old(self).ptr,
            old(self).addrs@[node as int] == on_path(ip_value(rule.prefix), depth as nat),
            old(self).chain_to(ip_value(rule.prefix), depth as nat),
            old(self).sound(old(self).rules@.push(*rule)),
        ensures
            ok ==> {
                &&& final(self).wf()
                &&& final(self).rules@ == old(self).rules@.push(*rule)
                &&& old(self).ptr <= final(self).ptr <= old(self).ptr + 8
            },
            !ok ==> {
                &&& final(self).ptr == LEN
                &&& LEN <= old(self).ptr + 7
                &&& final(self).shape_ok()
                &&& final(self).sound(old(self).rules@.push(*rule))
                &&& final(self).lacks(*rule)
            },
    {
        let ghost rules0 = self.rules@;
        let ghost x = ip_value(rule.prefix);
        let prefix = ip_to_u32(&rule.prefix);
        let left: u8 = rule.len - depth;
        let filled: u8 = TRIE_BITLEN - left;
        let k = nibble_at(prefix, depth);
        let base: usize = (k >> filled) << filled;
        let count: usize = 1usize << filled;
        let ghost lo: nat = top_bits(x, depth as nat) * 16 + base as nat;
        proof {
            assert(k < 16 && (filled == 1 || filled == 2 || filled == 3) ==> ((k >> filled)
                << filled) == (k / (1usize << filled)) * (1usize << filled) && (1usize << filled)
                == (if filled == 1 {
                2usize
            } else if filled == 2 {
                4usize
            } else {
                8usize
            })) by (bit_vector);
            lemma2_to64();
            assert(pow2(filled as nat) == count);
            if filled == 1 {
                assert(base == (k / 2) * 2);
            } else if filled == 2 {
                assert(base == (k / 4) * 4);
            } else {
                assert(base == (k / 8) * 8);
            }
            assert(base as nat == (nibble(x, depth as nat) / (count as nat)) * (count as nat));
        }
        let mut i: usize = 0;
        while i < count
            invariant
                0 <= i <= count,
                count == 2 || count == 4 || count == 8,
                base % count == 0,
                base + count <= 16,
                depth <= 28,
                node < self.ptr,
                self.addrs@[node as int] == on_path(x, depth as nat),
                lo == top_bits(x, depth as nat) * 16 + base,
                base as nat == (nibble(x, depth as nat) / (count as nat)) * (count as nat),
                count == pow2((depth + 4 - rule.len) as nat),
                rules0 == old(self).rules@,
                x == ip_value(rule.prefix),
                rule.valid(),
                depth % 4 == 0,
                depth < rule.len < depth + 4,
                self.filling(rules0, depth as nat, lo, i as nat, rule.next),
                self.sound(rules0.push(*rule)),
                self.chain_to(x, depth as nat),
                old(self).ptr <= self.ptr <= old(self).ptr + i,
            decreases count - i,
        {
            let idx: usize = base | i;
            proof {
                assert(base < 16 && i < 8 && (count == 2 || count == 4 || count == 8) && base
                    % count == 0 && i < count ==> (base | i) == base + i) by (bit_vector);
            }
            proof {
                let target = node_addr((depth + 4) as nat, (lo + i) as nat);
                lemma_target_range(*rule, depth as nat, target);
                let all = rules0.push(*rule);
                assert(all[rules0.len() as int] == *rule);
                assert(needs_node(all[rules0.len() as int], target));
            }
            let ok = self.fill_child(
                node,
                idx,
                rule.next,
                Ghost(rules0),
                Ghost(lo),
                Ghost(i as nat),
                Ghost(x),
                Ghost(rules0.push(*rule)),
            );
            if !ok {
                proof {
                    assert(needs_node(*rule, node_addr((depth + 4) as nat, (lo + i) as nat)));
                }
                return false;
            }
            i = i + 1;
        }
        proof {
            let mid = *self;
            self.rules@ = rules0.push(*rule);
            mid.lemma_shape_kept(*self);
            let rules1 = rules0.push(*rule);
            assert(rules1.drop_last() == rules0);
            assert(rules1.last() == *rule);
            assert forall|a: NodeAddr| in_target(*rule, a) <==> (a.depth == depth + 4 && lo
                <= a.path < lo + count) by {
                lemma_target_range(*rule, depth as nat, a);
            }
            assert forall|n: int| 0 <= n < self.ptr implies (#[trigger] self.store@[n]).value
                == node_value(rules1, self.addrs@[n]) by {
            }
            assert forall|n: int, a: NodeAddr|
                0 <= n < rules1.len() && #[trigger] needs_node(rules1[n], a) implies self.has(
                a,
            ) by {
                if n < rules0.len() {
                    assert(rules1[n] == rules0[n]);
                    assert(needs_node(rules0[n], a));
                } else {
                    if in_target(*rule, a) {
                        assert(a == node_addr((depth + 4) as nat, a.path));
                    } else {
                        assert(a == on_path(x, a.depth));
                    }
                }
            }
            assert(rules_valid(rules1)) by {
                assert forall|i: int| 0 <= i < rules1.len() implies (#[trigger] rules1[i]).valid() by {
                    if i < rules0.len() {
                        assert(rules1[i] == rules0[i]);
                    }
                }
            }
            assert(self.values_ok(rules1));
            assert(self.complete(rules1));
            assert(self.shape_ok());
        }
        true
    }
}

/// What `last_cover` finds covers `addr`, and no later rule does; where it
/// finds nothing, no rule covers `addr`.
pub proof fn lemma_last_cover(rules: Seq<Rule>, addr: IPAddr)
    ensures
        match last_cover(rules, addr) {
            Some(i) => {
                &&& 0 <= i < rules.len()
                &&& rules[i].covers(addr)
                &&& forall|j: int| i < j < rules.len() ==> !(#[trigger] rules[j]).covers(addr)
            },
            None => forall|j: int| 0 <= j < rules.len() ==> !(#[trigger] rules[j]).covers(addr),
        },
    decreases rules.len(),
{
    if rules.len() > 0 {
        lemma_last_cover(rules.drop_last(), addr);
        assert forall|j: int| 0 <= j < rules.len() - 1 implies rules.drop_last()[j] == rules[j] by {
        }
        if !rules.last().covers(addr) {
            match last_cover(rules.drop_last(), addr) {
                Some(i) => {
                    assert forall|j: int| i < j < rules.len() implies !(#[trigger] rules[j]).covers(
                        addr,
                    ) by {
                        if j < rules.len() - 1 {
                            assert(rules.drop_last()[j] == rules[j]);
                        }
                    }
                },
                None => {
                    assert forall|j: int| 0 <= j < rules.len() implies !(#[trigger] rules[j]).covers(
                        addr,
                    ) by {
                        if j < rules.len() - 1 {
                            assert(rules.drop_last()[j] == rules[j]);
                        }
                    }
                },
            }
        }
    }
}

/// The answer at depth `d` is the next hop of rule `i` when that rule covers
/// `addr` at depth `d` and no later rule does.
pub proof fn lemma_best_at_last(rules: Seq<Rule>, addr: IPAddr, d: nat, i: int)
    requires
        0 <= i < rules.len(),
        rules[i].covers(addr),
        stride_depth(rules[i].len as nat) == d,
        forall|j: int|
            i < j < rules.len() ==> !((#[trigger] rules[j]).covers(addr) && stride_depth(
                rules[j].len as nat,
            ) == d),
    ensures
        best_at(rules, addr, d) == Some(rules[i].next),
    decreases rules.len(),
{
    if i < rules.len() - 1 {
        assert(rules.last() == rules[rules.len() - 1]);
        assert(rules.drop_last()[i] == rules[i]);
        assert forall|j: int| i < j < rules.drop_last().len() implies !((
        #[trigger] rules.drop_last()[j]).covers(addr) && stride_depth(
            rules.drop_last()[j].len as nat,
        ) == d) by {
            assert(rules.drop_last()[j] == rules[j]);
        }
        lemma_best_at_last(rules.drop_last(), addr, d, i);
    }
}

/// Longest-prefix match. For valid rules in ascending order of length, the
/// trie answers with the next hop of the longest prefix that covers the
/// address (of the last such rule, where several have that length), and with
/// nothing exactly when no rule covers it.
pub proof fn lemma_route_is_longest_match(rules: Seq<Rule>, addr: IPAddr)
    requires
        rules_valid(rules),
        sorted_by_len(rules),
    ensures
        match last_cover(rules, addr) {
            Some(i) => {
                &&& 0 <= i < rules.len()
                &&& rules[i].covers(addr)
                &&& route(rules, addr) == Some(rules[i].next)
                &&& forall|j: int|
                    0 <= j < rules.len() && (#[trigger] rules[j]).covers(addr) ==> rules[j].len
                        <= rules[i].len && j <= i
            },
            None => {
                &&& route(rules, addr) is None
                &&& forall|j: int| 0 <= j < rules.len() ==> !(#[trigger] rules[j]).covers(addr)
            },
        },
{
    lemma_last_cover(rules, addr);
    match last_cover(rules, addr) {
        Some(i) => {
            let d = stride_depth(rules[i].len as nat);
            assert(rules[i].valid());
            lemma_best_at_last(rules, addr, d, i);
            assert forall|e: nat| d + 4 <= e <= 32 && e % 4 == 0 implies #[trigger] best_at(
                rules,
                addr,
                e,
            ) is None by {
                assert forall|n: int| 0 <= n < rules.len() implies !((#[trigger] rules[n]).covers(
                    addr,
                ) && stride_depth(rules[n].len as nat) == e) by {
                    if rules[n].covers(addr) {
                        assert(n <= i);
                        assert(rules[n].len <= rules[i].len);
                    }
                }
                lemma_best_at_none(rules, addr, e);
            }
            lemma_route_skip(rules, addr, d + 4, 32);
        },
        None => {
            assert forall|e: nat| 0 <= e <= 32 && e % 4 == 0 implies #[trigger] best_at(
                rules,
                addr,
                e,
            ) is None by {
                lemma_best_at_none(rules, addr, e);
            }
            lemma_route_skip(rules, addr, 4, 32);
        },
    }
}

/// A rule of length 0, the default route, covers every address: a rule set
/// that holds one answers every lookup.
pub proof fn lemma_default_covers(rules: Seq<Rule>, n: int, addr: IPAddr)
    requires
        0 <= n < rules.len(),
        rules[n].len == 0,
    ensures
        rules[n].covers(addr),
        last_cover(rules, addr) is Some,
{
    lemma2_to64();
    lemma_basic_div(ip_value(addr) as int, pow2(32) as int);
    lemma_basic_div(ip_value(rules[n].prefix) as int, pow2(32) as int);
    lemma_last_cover(rules, addr);
}

/// With a default route among valid rules in ascending order of length,
/// the trie answers every lookup.
pub proof fn lemma_default_always_answers(rules: Seq<Rule>, n: int, addr: IPAddr)
    requires
        rules_valid(rules),
        sorted_by_len(rules),
        0 <= n < rules.len(),
        rules[n].len == 0,
    ensures
        route(rules, addr) is Some,
{
    lemma_default_covers(rules, n, addr);
    lemma_route_is_longest_match(rules, addr);
}

/// A rule needs every node on the walk for its prefix down to its stride
/// depth, as far as the prefix reaches whole levels.
pub proof fn lemma_on_path_needed(r: Rule, d: nat)
    requires
        r.valid(),
        d % 4 == 0,
        d <= r.len,
    ensures
        needs_node(r, on_path(ip_value(r.prefix), d)),
{
    if d == stride_depth(r.len as nat) {
        lemma2_to64();
        let a = on_path(ip_value(r.prefix), d);
        assert(a.path / 1 == a.path);
    }
}

/// More rules want more nodes.
pub proof fn lemma_wanted_more(fewer: Seq<Rule>, more: Seq<Rule>, a: NodeAddr)
    requires
        fewer.len() <= more.len(),
        forall|n: int| 0 <= n < fewer.len() ==> fewer[n] == more[n],
        wanted(fewer, a),
    ensures
        wanted(more, a),
{
    if a != root_addr() {
        let n = choose|n: int| 0 <= n < fewer.len() && needs_node(#[trigger] fewer[n], a);
        assert(needs_node(more[n], a));
    }
}

/// The nodes that one rule needs are finitely many.
pub proof fn lemma_rule_nodes_finite(r: Rule)
    requires
        r.valid(),
    ensures
        Set::new(|a: NodeAddr| needs_node(r, a)).finite(),
{
    let x = ip_value(r.prefix);
    let d = stride_depth(r.len as nat);
    let c = pow2((d - r.len) as nat);
    let t = top_bits(x, r.len as nat);
    lemma2_to64();
    let chain = Set::<NodeAddr>::empty().insert(on_path(x, 0)).insert(on_path(x, 4)).insert(
        on_path(x, 8),
    ).insert(on_path(x, 12)).insert(on_path(x, 16)).insert(on_path(x, 20)).insert(
        on_path(x, 24),
    ).insert(on_path(x, 28));
    let targets = Set::<NodeAddr>::empty().insert(node_addr(d, t * c)).insert(
        node_addr(d, t * c + 1),
    ).insert(node_addr(d, t * c + 2)).insert(node_addr(d, t * c + 3)).insert(
        node_addr(d, t * c + 4),
    ).insert(node_addr(d, t * c + 5)).insert(node_addr(d, t * c + 6)).insert(
        node_addr(d, t * c + 7),
    );
    let both = chain.union(targets);
    let needed = Set::new(|a: NodeAddr| needs_node(r, a));
    assert(c == 1 || c == 2 || c == 4 || c == 8);
    assert forall|a: NodeAddr| needed.contains(a) implies both.contains(a) by {
        if in_chain(r, a) {
            assert(a == on_path(x, a.depth));
            assert(chain.contains(a));
        } else {
            lemma_fundamental_div_mod(a.path as int, c as int);
            let off = a.path - t * c;
            assert(0 <= off < 8);
            assert(a == node_addr(d, (t * c + off) as nat));
            assert(targets.contains(a));
        }
    }
    assert(needed.subset_of(both));
    vstd::set_lib::lemma_set_subset_finite(both, needed);
}

/// The trie of a rule set has finitely many nodes.
pub proof fn lemma_trie_nodes_finite(rules: Seq<Rule>)
    requires
        rules_valid(rules),
    ensures
        trie_nodes(rules).finite(),
    decreases rules.len(),
{
    if rules.len() == 0 {
        assert(trie_nodes(rules) =~= Set::<NodeAddr>::empty().insert(root_addr()));
    } else {
        let init = rules.drop_last();
        let last = rules.last();
        assert forall|n: int| 0 <= n < init.len() implies (#[trigger] init[n]).valid() by {
            assert(init[n] == rules[n]);
        }
        lemma_trie_nodes_finite(init);
        assert(last.valid());
        lemma_rule_nodes_finite(last);
        let needed = Set::new(|a: NodeAddr| needs_node(last, a));
        assert forall|a: NodeAddr| trie_nodes(rules).contains(a) implies trie_nodes(init).union(
            needed,
        ).contains(a) by {
            if a != root_addr() {
                let n = choose|n: int| 0 <= n < rules.len() && needs_node(#[trigger] rules[n], a);
                if n < init.len() {
                    assert(init[n] == rules[n]);
                    assert(wanted(init, a));
                }
            }
        }
        assert(trie_nodes(rules).subset_of(trie_nodes(init).union(needed)));
        vstd::set_lib::lemma_set_subset_finite(trie_nodes(init).union(needed), trie_nodes(rules));
    }
}

impl<const LEN: usize> TrieBuf<LEN> {
    /// Nodes that the trie of fewer rules has, the trie of more rules has.
    proof fn lemma_sound_more(self, fewer: Seq<Rule>, more: Seq<Rule>)
        requires
            self.sound(fewer),
            fewer.len() <= more.len(),
            forall|n: int| 0 <= n < fewer.len() ==> fewer[n] == more[n],
        ensures
            self.sound(more),
    {
        assert forall|i: int| 0 <= i < self.ptr implies wanted(more, #[trigger] self.addrs@[i]) by {
            lemma_wanted_more(fewer, more, self.addrs@[i]);
        }
    }

    /// After `child` made a node that the rule `r` needs, every node is
    /// still one that the trie of `all`, which holds `r`, has.
    proof fn lemma_sound_grown(self, after: Self, all: Seq<Rule>, r: Rule)
        requires
            self.sound(all),
            all.len() > 0,
            all.last() == r,
            self.ptr <= after.ptr <= self.ptr + 1,
            forall|i: int| 0 <= i < self.ptr ==> #[trigger] after.addrs@[i] == self.addrs@[i],
            after.ptr > self.ptr ==> needs_node(r, after.addrs@[self.ptr as int]),
        ensures
            after.sound(all),
    {
        assert forall|i: int| 0 <= i < after.ptr implies wanted(all, #[trigger] after.addrs@[i]) by {
            if i < self.ptr {
                assert(after.addrs@[i] == self.addrs@[i]);
            } else {
                assert(needs_node(all[all.len() - 1], after.addrs@[i]));
            }
        }
    }

    /// A full arena that lacks a node of the trie is too small for it.
    proof fn lemma_too_small(self, rules: Seq<Rule>, i: int)
        requires
            rules_valid(rules),
            0 <= i < rules.len(),
            self.shape_ok(),
            self.ptr == LEN,
            self.sound(rules.subrange(0, i + 1)),
            self.lacks(rules[i]),
        ensures
            trie_nodes(rules).len() > LEN,
    {
        let a = choose|a: NodeAddr| needs_node(rules[i], a) && !self.has(a);
        let held = self.addrs@.to_set();
        lemma_trie_nodes_finite(rules);
        assert(self.addrs@.no_duplicates());
        self.addrs@.unique_seq_to_set();
        vstd::seq_lib::seq_to_set_is_finite(self.addrs@);
        assert(!held.contains(a)) by {
            if held.contains(a) {
                let w = choose|w: int| 0 <= w < self.addrs@.len() && self.addrs@[w] == a;
                assert(self.has(a));
            }
        }
        let more = held.insert(a);
        assert(more.len() == LEN + 1);
        assert forall|b: NodeAddr| more.contains(b) implies trie_nodes(rules).contains(b) by {
            if b == a {
                assert(needs_node(rules[i], a));
            } else {
                let w = choose|w: int| 0 <= w < self.addrs@.len() && self.addrs@[w] == b;
                lemma_wanted_more(rules.subrange(0, i + 1), rules, b);
            }
        }
        assert(more.subset_of(trie_nodes(rules)));
        vstd::set_lib::lemma_len_subset(more, trie_nodes(rules));
    }

    /// An arena that holds the trie of its rules has as many nodes as the
    /// trie.
    proof fn lemma_fits(self)
        requires
            self.wf(),
            self.ptr > 0,
        ensures
            trie_nodes(self.rules@).len() == self.ptr,
    {
        let held = self.addrs@.to_set();
        assert(self.addrs@.no_duplicates());
        self.addrs@.unique_seq_to_set();
        assert forall|a: NodeAddr| held.contains(a) <==> trie_nodes(self.rules@).contains(a) by {
            if held.contains(a) {
                let w = choose|w: int| 0 <= w < self.addrs@.len() && self.addrs@[w] == a;
                assert(wanted(self.rules@, self.addrs@[w]));
            }
            if wanted(self.rules@, a) {
                if a == root_addr() {
                    assert(self.addrs@[0] == a);
                } else {
                    let n = choose|n: int|
                        0 <= n < self.rules@.len() && needs_node(#[trigger] self.rules@[n], a);
                    assert(self.has(a));
                    let w = choose|w: int| 0 <= w < self.ptr && self.addrs@[w] == a;
                    assert(self.addrs@[w] == a);
                }
                assert(self.addrs@.contains(a));
            }
        }
        assert(held =~= trie_nodes(self.rules@));
    }
}

} // verus!
