//! The forwarding cache: a cuckoo hash table from destination address to
//! next hop, with two candidate rows per key, bounded displacement and
//! optional eviction.

use vstd::prelude::*;
use crate::routing::{ip_eq, IPAddr};

verus! {

/// Number of rows of the table; a power of two.
pub const ROWS_NUM: u32 = 1024;

/// Mask that reduces a hash to a row index.
pub const ROWS_NUM_MASK: u32 = 1023;

/// How many occupants in a chain an insert may move to make room.
pub const SHIFT_DEPTH: i32 = 3;

/// The all-zero key, which marks an empty slot and cannot be stored.
pub open spec fn is_zero(k: IPAddr) -> bool {
    k[0] == 0 && k[1] == 0 && k[2] == 0 && k[3] == 0
}

/// The first candidate row of a key: the low ten bits of its first two bytes.
pub open spec fn row1(k: IPAddr) -> int {
    (k[0] as int + 256 * (k[1] as int)) % 1024
}

/// The second candidate row of a key: the low ten bits of its last two bytes.
pub open spec fn row2(k: IPAddr) -> int {
    (k[2] as int + 256 * (k[3] as int)) % 1024
}

/// Whether `r` is one of the two candidate rows of `k`.
pub open spec fn home(k: IPAddr, r: int) -> bool {
    row1(k) == r || row2(k) == r
}

/// Four key and value pairs. A slot whose key is all zero is empty.
#[derive(Debug, Clone, Copy)]
pub struct Row {
    pub keys: [IPAddr; 4],
    pub values: [IPAddr; 4],
}

/// Whether a key is the all-zero key.
pub fn key_is_zero(k: &IPAddr) -> (r: bool)
    ensures
        r == is_zero(*k),
{
    k[0] == 0 && k[1] == 0 && k[2] == 0 && k[3] == 0
}

impl Row {
    /// The first slot of the row that holds `k`.
    pub open spec fn find(self, k: IPAddr) -> Option<int> {
        if self.keys[0] == k {
            Some(0)
        } else if self.keys[1] == k {
            Some(1)
        } else if self.keys[2] == k {
            Some(2)
        } else if self.keys[3] == k {
            Some(3)
        } else {
            None
        }
    }

    /// The first empty slot of the row.
    pub open spec fn first_empty(self) -> Option<int> {
        if is_zero(self.keys[0]) {
            Some(0)
        } else if is_zero(self.keys[1]) {
            Some(1)
        } else if is_zero(self.keys[2]) {
            Some(2)
        } else if is_zero(self.keys[3]) {
            Some(3)
        } else {
            None
        }
    }

    /// A row of four empty slots.
    pub fn new() -> (r: Self)
        ensures
            forall|i: int| 0 <= i < 4 ==> is_zero(#[trigger] r.keys[i]),
            forall|i: int| 0 <= i < 4 ==> is_zero(#[trigger] r.values[i]),
    {
        Row { keys: [[0, 0, 0, 0];4], values: [[0, 0, 0, 0];4] }
    }

    /// Index of the first slot whose key is `k`.
    fn position(&self, k: &IPAddr) -> (r: Option<usize>)
        ensures
            match r {
                Some(i) => self.find(*k) == Some(i as int) && i < 4,
                None => self.find(*k) is None,
            },
    {
        let mut i: usize = 0;
        while i < 4
            invariant
                0 <= i <= 4,
                forall|j: int| 0 <= j < i ==> self.keys[j] != *k,
            decreases 4 - i,
        {
            if ip_eq(&self.keys[i], k) {
                return Some(i);
            }
            i = i + 1;
        }
        None
    }

    /// Index of the first empty slot.
    fn vacancy(&self) -> (r: Option<usize>)
        ensures
            match r {
                Some(i) => self.first_empty() == Some(i as int) && i < 4,
                None => self.first_empty() is None,
            },
    {
        let mut i: usize = 0;
        while i < 4
            invariant
                0 <= i <= 4,
                forall|j: int| 0 <= j < i ==> !is_zero(self.keys[j]),
            decreases 4 - i,
        {
            if key_is_zero(&self.keys[i]) {
                return Some(i);
            }
            i = i + 1;
        }
        None
    }

    /// The value of the first slot that holds `k`.
    pub fn lookup(&self, k: &IPAddr) -> (r: Option<IPAddr>)
        ensures
            r == match self.find(*k) {
                Some(i) => Some(self.values[i]),
                None => None,
            },
    {
        match self.position(k) {
            Some(i) => Some(self.values[i]),
            None => None,
        }
    }

    /// Puts the pair into the first empty slot; fails, changing nothing, when
    /// the row is full.
    pub fn insert(&mut self, k: &IPAddr, v: &IPAddr) -> (r: Result<(), ()>)
        requires
            !is_zero(*k),
        ensures
            match old(self).first_empty() {
                Some(i) => r is Ok && final(self).keys@ == old(self).keys@.update(i, *k)
                    && final(self).values@ == old(self).values@.update(i, *v),
                None => r is Err && *final(self) == *old(self),
            },
    {
        match self.vacancy() {
            Some(i) => {
                self.keys[i] = *k;
                self.values[i] = *v;
                Ok(())
            },
            None => Err(()),
        }
    }

    /// Replaces the value of the first slot that holds `k`; fails, changing
    /// nothing, when no slot does.
    pub fn modify(&mut self, k: &IPAddr, v: &IPAddr) -> (r: Result<(), ()>)
        ensures
            final(self).keys == old(self).keys,
            match old(self).find(*k) {
                Some(i) => r is Ok && final(self).values@ == old(self).values@.update(i, *v),
                None => r is Err && *final(self) == *old(self),
            },
    {
        match self.position(k) {
            Some(i) => {
                self.values[i] = *v;
                Ok(())
            },
            None => Err(()),
        }
    }

    /// Empties the first slot that holds `k`; fails, changing nothing, when
    /// no slot does.
    pub fn remove(&mut self, k: &IPAddr) -> (r: Result<(), ()>)
        ensures
            final(self).values == old(self).values,
            match old(self).find(*k) {
                Some(i) => r is Ok && is_zero(final(self).keys[i]) && forall|j: int|
                    0 <= j < 4 && j != i ==> final(self).keys[j] == old(self).keys[j],
                None => r is Err && *final(self) == *old(self),
            },
    {
        match self.position(k) {
            Some(i) => {
                self.keys[i] = [0, 0, 0, 0];
                Ok(())
            },
            None => Err(()),
        }
    }
}

/// A stored pair.
pub struct Entry {
    pub key: IPAddr,
    pub value: IPAddr,
}

/// What one slot holds: nothing, or a key that is not zero with its value.
pub type Slot = Option<Entry>;

/// The slot that holds `k` with `v`.
pub open spec fn entry(k: IPAddr, v: IPAddr) -> Slot {
    Some(Entry { key: k, value: v })
}

/// The slot `i` of a row.
pub open spec fn slot_of(row: Row, i: int) -> Slot {
    if is_zero(row.keys[i]) {
        None
    } else {
        entry(row.keys[i], row.values[i])
    }
}

/// The slots of a table, row after row: slot `i` of row `r` is number
/// `4 * r + i`.
pub open spec fn slots_of(table: Seq<Row>) -> Seq<Slot> {
    Seq::new(4096, |n: int| slot_of(table[n / 4], n % 4))
}

/// Slot `n` holds the key `k`.
pub open spec fn holds(s: Seq<Slot>, k: IPAddr, n: int) -> bool {
    0 <= n < 4096 && s[n] is Some && s[n].unwrap().key == k
}

/// Every key sits in one of its two rows, and nowhere twice.
pub open spec fn slots_ok(s: Seq<Slot>) -> bool {
    &&& s.len() == 4096
    &&& forall|n: int|
        0 <= n < 4096 ==> match #[trigger] s[n] {
            Some(e) => !is_zero(e.key) && home(e.key, n / 4),
            None => true,
        }
    &&& forall|n: int, m: int|
        0 <= n < 4096 && 0 <= m < 4096 && n != m && (#[trigger] s[n]) is Some && (
        #[trigger] s[m]) is Some ==> s[n].unwrap().key != s[m].unwrap().key
}

/// The mapping that the slots store.
pub open spec fn slots_view(s: Seq<Slot>) -> Map<IPAddr, IPAddr> {
    Map::new(
        |k: IPAddr| exists|n: int| holds(s, k, n),
        |k: IPAddr| s[choose|n: int| holds(s, k, n)].unwrap().value,
    )
}

/// What scanning the two rows of `k` finds: the first match in its first
/// row, else the first match in its second row.
pub open spec fn scan_rows(table: Seq<Row>, k: IPAddr) -> Option<IPAddr> {
    match table[row1(k)].find(k) {
        Some(i) => Some(table[row1(k)].values[i]),
        None => match table[row2(k)].find(k) {
            Some(i) => Some(table[row2(k)].values[i]),
            None => None,
        },
    }
}

/// The row to which the occupant `k` of row `r` can move.
pub open spec fn alt_row(k: IPAddr, r: int) -> int {
    if row2(k) == r {
        row1(k)
    } else {
        row2(k)
    }
}

/// Row `r` has an empty slot.
pub open spec fn row_has_empty(s: Seq<Slot>, r: int) -> bool {
    s[4 * r] is None || s[4 * r + 1] is None || s[4 * r + 2] is None || s[4 * r + 3] is None
}

/// A slot of row `r` can be had by moving at most `depth` occupants, each to
/// its other row: the row has an empty slot, or one of its occupants can
/// move into a slot of its other row that can be had with one move fewer.
pub open spec fn can_shift(s: Seq<Slot>, r: int, depth: nat) -> bool
    decreases depth, 1nat,
{
    row_has_empty(s, r) || (depth > 0 && (can_move(s, r, 0, depth) || can_move(s, r, 1, depth)
        || can_move(s, r, 2, depth) || can_move(s, r, 3, depth)))
}

/// The occupant of slot `i` of row `r` has another row, in which a slot can
/// be had by moving fewer than `depth` occupants.
pub open spec fn can_move(s: Seq<Slot>, r: int, i: int, depth: nat) -> bool
    decreases depth, 0nat,
{
    match s[4 * r + i] {
        Some(e) => depth > 0 && row1(e.key) != row2(e.key) && can_shift(
            s,
            alt_row(e.key, r),
            (depth - 1) as nat,
        ),
        None => false,
    }
}

/// The slot that the next eviction overwrites for the key `k`, given the
/// displacement counter before it.
pub open spec fn evict_slot(kick: u8, k: IPAddr) -> int {
    let next = (kick + 1) % 8;
    if next <= 3 {
        4 * row1(k) + next
    } else {
        4 * row2(k) + (next - 4)
    }
}

/// A stored pair is what the view says.
pub proof fn lemma_view_at(s: Seq<Slot>, n: int)
    requires
        slots_ok(s),
        0 <= n < 4096,
        s[n] is Some,
    ensures
        slots_view(s).contains_key(s[n].unwrap().key),
        slots_view(s)[s[n].unwrap().key] == s[n].unwrap().value,
{
    let k = s[n].unwrap().key;
    assert(holds(s, k, n));
    let m = choose|m: int| holds(s, k, m);
    assert(m == n);
}

/// Emptying a slot takes its key, and nothing else, out of the view.
pub proof fn lemma_clear(s: Seq<Slot>, n: int)
    requires
        slots_ok(s),
        0 <= n < 4096,
    ensures
        slots_ok(s.update(n, None)),
        slots_view(s.update(n, None)) == (match s[n] {
            Some(e) => slots_view(s).remove(e.key),
            None => slots_view(s),
        }),
{
    let t = s.update(n, None);
    let v = slots_view(s);
    let w = match s[n] {
        Some(e) => v.remove(e.key),
        None => v,
    };
    assert forall|k: IPAddr| slots_view(t).contains_key(k) <==> w.contains_key(k) by {
        if slots_view(t).contains_key(k) {
            let m = choose|m: int| holds(t, k, m);
            assert(holds(s, k, m));
            assert(m != n);
            if s[n] is Some {
                assert(s[n].unwrap().key != s[m].unwrap().key);
            }
        }
        if w.contains_key(k) {
            let m = choose|m: int| holds(s, k, m);
            assert(holds(s, k, m));
            assert(m != n);
            assert(holds(t, k, m));
        }
    }
    assert forall|k: IPAddr| slots_view(t).contains_key(k) implies slots_view(t)[k] == w[k] by {
        let m = choose|m: int| holds(t, k, m);
        assert(holds(s, k, m));
        lemma_view_at(s, m);
    }
    assert(slots_view(t) =~= w);
}

/// Filling an empty slot with a key that is not stored yet, in one of the
/// key's rows, adds that pair to the view.
pub proof fn lemma_fill(s: Seq<Slot>, n: int, k: IPAddr, v: IPAddr)
    requires
        slots_ok(s),
        0 <= n < 4096,
        s[n] is None,
        !is_zero(k),
        home(k, n / 4),
        !slots_view(s).contains_key(k),
    ensures
        slots_ok(s.update(n, entry(k, v))),
        slots_view(s.update(n, entry(k, v))) == slots_view(s).insert(k, v),
{
    let t = s.update(n, entry(k, v));
    assert forall|a: int, b: int|
        0 <= a < 4096 && 0 <= b < 4096 && a != b && (#[trigger] t[a]) is Some && (
        #[trigger] t[b]) is Some implies t[a].unwrap().key != t[b].unwrap().key by {
        if a == n {
            if t[b].unwrap().key == k {
                assert(holds(s, k, b));
            }
        } else if b == n {
            if t[a].unwrap().key == k {
                assert(holds(s, k, a));
            }
        }
    }
    assert(slots_ok(t));
    let w = slots_view(s).insert(k, v);
    assert forall|q: IPAddr| slots_view(t).contains_key(q) <==> w.contains_key(q) by {
        if slots_view(t).contains_key(q) {
            let m = choose|m: int| holds(t, q, m);
            if m != n {
                assert(holds(s, q, m));
            }
        }
        if w.contains_key(q) {
            if q == k {
                assert(holds(t, k, n));
            } else {
                let m = choose|m: int| holds(s, q, m);
                assert(holds(t, q, m));
            }
        }
    }
    assert forall|q: IPAddr| slots_view(t).contains_key(q) implies slots_view(t)[q] == w[q] by {
        let m = choose|m: int| holds(t, q, m);
        lemma_view_at(t, m);
        if m != n {
            assert(holds(s, q, m));
            lemma_view_at(s, m);
        }
    }
    assert(slots_view(t) =~= w);
}

/// Overwriting a slot, empty or not, with a key that is stored nowhere else
/// replaces what the slot held by the new pair.
pub proof fn lemma_overwrite(s: Seq<Slot>, n: int, k: IPAddr, v: IPAddr)
    requires
        slots_ok(s),
        0 <= n < 4096,
        !is_zero(k),
        home(k, n / 4),
        forall|m: int| holds(s, k, m) ==> m == n,
    ensures
        slots_ok(s.update(n, entry(k, v))),
        slots_view(s.update(n, entry(k, v))) == (match s[n] {
            Some(e) => slots_view(s).remove(e.key).insert(k, v),
            None => slots_view(s).insert(k, v),
        }),
{
    lemma_clear(s, n);
    let c = s.update(n, None);
    if slots_view(c).contains_key(k) {
        let m = choose|m: int| holds(c, k, m);
        assert(holds(s, k, m));
    }
    lemma_fill(c, n, k, v);
    assert(c.update(n, entry(k, v)) =~= s.update(n, entry(k, v)));
}

/// Moving a pair into an empty slot of its other row leaves the view as it
/// was.
pub proof fn lemma_move(s: Seq<Slot>, from: int, to: int)
    requires
        slots_ok(s),
        0 <= from < 4096,
        0 <= to < 4096,
        from != to,
        s[to] is None,
        s[from] is Some,
        home(s[from].unwrap().key, to / 4),
    ensures
        slots_ok(s.update(to, s[from]).update(from, None)),
        slots_view(s.update(to, s[from]).update(from, None)) == slots_view(s),
{
    let k = s[from].unwrap().key;
    let v = s[from].unwrap().value;
    lemma_view_at(s, from);
    lemma_clear(s, from);
    let c = s.update(from, None);
    lemma_fill(c, to, k, v);
    assert(c.update(to, entry(k, v)) =~= s.update(to, s[from]).update(from, None));
    assert(slots_view(s).remove(k).insert(k, v) =~= slots_view(s));
}

/// A key that neither of its rows holds is not in the view.
pub proof fn lemma_scan_miss(table: Seq<Row>, k: IPAddr)
    requires
        table.len() == 1024,
        slots_ok(slots_of(table)),
        !is_zero(k),
        table[row1(k)].find(k) is None,
        table[row2(k)].find(k) is None,
    ensures
        !slots_view(slots_of(table)).contains_key(k),
        forall|m: int| !holds(slots_of(table), k, m),
{
    let s = slots_of(table);
    assert forall|m: int| !holds(s, k, m) by {
        if holds(s, k, m) {
            assert(home(k, m / 4));
            assert(table[m / 4].keys[m % 4] == k);
        }
    }
}

/// What the scan of the two rows finds for a key that is not zero is what
/// the view holds for it.
pub proof fn lemma_scan_is_view(table: Seq<Row>, k: IPAddr)
    requires
        table.len() == 1024,
        slots_ok(slots_of(table)),
        !is_zero(k),
    ensures
        scan_rows(table, k) == (if slots_view(slots_of(table)).contains_key(k) {
            Some(slots_view(slots_of(table))[k])
        } else {
            None
        }),
{
    let s = slots_of(table);
    match table[row1(k)].find(k) {
        Some(i) => {
            let n = 4 * row1(k) + i;
            assert(s[n] == slot_of(table[n / 4], n % 4));
            lemma_view_at(s, n);
        },
        None => {
            match table[row2(k)].find(k) {
                Some(i) => {
                    let n = 4 * row2(k) + i;
                    assert(s[n] == slot_of(table[n / 4], n % 4));
                    lemma_view_at(s, n);
                },
                None => {
                    lemma_scan_miss(table, k);
                },
            }
        },
    }
}

/// What a displacement of at most `depth` moves for row `row` may have
/// changed: up to depth 1 only slots that were empty; at depth 2 also
/// slots that now hold an occupant moved out of `row`.
pub open spec fn changed_ok(s0: Seq<Slot>, s1: Seq<Slot>, depth: int, row: int) -> bool {
    forall|n: int|
        0 <= n < 4096 ==> ((#[trigger] s1[n]) == s0[n] || s0[n] is None || depth >= 3 || (depth == 2
            && s1[n] is Some && home(s1[n].unwrap().key, row)))
}

/// The forwarding cache: 1024 rows of four slots, and the counter that picks
/// the slot of the next eviction.
pub struct Cuckoo {
    rows: [Row; 1024],
    kick: u8,
}

impl View for Cuckoo {
    type V = Map<IPAddr, IPAddr>;

    /// The mapping from destination to next hop that the cache stores.
    open spec fn view(&self) -> Map<IPAddr, IPAddr> {
        slots_view(self.slots())
    }
}

impl Cuckoo {
    /// The rows of the table.
    pub closed spec fn table(&self) -> Seq<Row> {
        self.rows@
    }

    /// The displacement counter.
    pub closed spec fn kick(&self) -> u8 {
        self.kick
    }

    /// The slots of the table, row after row.
    pub open spec fn slots(&self) -> Seq<Slot> {
        slots_of(self.table())
    }

    /// The table is consistent: every key sits once, in one of its rows.
    pub open spec fn wf(&self) -> bool {
        &&& self.table().len() == 1024
        &&& slots_ok(self.slots())
        &&& self.kick() < 8
    }

    /// Room for `k` can be made without eviction: in one of its two rows a
    /// slot is empty or can be emptied by moving at most three occupants.
    pub open spec fn has_room(&self, k: IPAddr) -> bool {
        can_shift(self.slots(), row1(k), 3) || can_shift(self.slots(), row2(k), 3)
    }

    /// An empty table.
    pub fn new() -> (r: Self)
        ensures
            r.wf(),
            r@ == Map::<IPAddr, IPAddr>::empty(),
            r.kick() == 0,
            forall|n: int| 0 <= n < 4096 ==> (#[trigger] r.slots()[n]) is None,
    {
        let r = Cuckoo { rows: [Row::new();1024], kick: 0 };
        proof {
            assert forall|n: int| 0 <= n < 4096 implies (#[trigger] r.slots()[n]) is None by {
                assert(is_zero(r.rows@[n / 4].keys[n % 4]));
            }
            assert forall|k: IPAddr| !r@.contains_key(k) by {
                if r@.contains_key(k) {
                    let n = choose|n: int| holds(r.slots(), k, n);
                    assert(r.slots()[n] is None);
                }
            }
            assert(r@ =~= Map::<IPAddr, IPAddr>::empty());
        }
        r
    }

    /// The two candidate rows of a key.
    fn row_ids(k: &IPAddr) -> (r: (usize, usize))
        ensures
            r.0 == row1(*k),
            r.1 == row2(*k),
            r.0 < 1024,
            r.1 < 1024,
    {
        let a: u8 = k[0];
        let b: u8 = k[1];
        let c: u8 = k[2];
        let d: u8 = k[3];
        let h: u32 = (a as u32) | (b as u32) << 8 | (c as u32) << 16 | (d as u32) << 24;
        let row_id1 = h & ROWS_NUM_MASK;
        let row_id2 = (h >> 16) & ROWS_NUM_MASK;
        assert((((a as u32) | (b as u32) << 8 | (c as u32) << 16 | (d as u32) << 24) & 1023) == ((
        a as u32) + 256 * (b as u32)) % 1024 && ((((a as u32) | (b as u32) << 8 | (c as u32) << 16
            | (d as u32) << 24) >> 16) & 1023) == ((c as u32) + 256 * (d as u32)) % 1024)
            by (bit_vector);
        (row_id1 as usize, row_id2 as usize)
    }

    /// Writes a pair into a slot, whatever the slot held.
    fn put(&mut self, row_id: usize, slot_id: usize, k: &IPAddr, v: &IPAddr)
        requires
            row_id < 1024,
            slot_id < 4,
            !is_zero(*k),
        ensures
            final(self).slots() == old(self).slots().update(4 * row_id + slot_id, entry(*k, *v)),
            final(self).kick() == old(self).kick(),
            final(self).table().len() == 1024,
    {
        self.rows[row_id].keys[slot_id] = *k;
        self.rows[row_id].values[slot_id] = *v;
        proof {
            let t = old(self).slots().update(4 * row_id + slot_id, entry(*k, *v));
            assert forall|n: int| 0 <= n < 4096 implies self.slots()[n] == t[n] by {
                if n / 4 != row_id {
                    assert(self.rows@[n / 4] == old(self).rows@[n / 4]);
                }
            }
            assert(self.slots() =~= t);
        }
    }

    /// Frees a slot of row `row_id` by moving occupants to their other rows,
    /// at most `depth` of them in a chain, and returns its index. The slot
    /// may still hold what was moved out of it: the caller overwrites it.
    /// `None`, with nothing changed, when no slot can be freed so.
    fn shift(&mut self, row_id: usize, depth: i32) -> (r: Option<usize>)
        requires
            old(self).wf(),
            row_id < 1024,
            0 <= depth <= SHIFT_DEPTH,
        ensures
            r is Some <==> can_shift(old(self).slots(), row_id as int, depth as nat),
            r is None ==> *final(self) == *old(self),
            r matches Some(i) ==> {
                &&& i < 4
                &&& final(self).kick() == old(self).kick()
                &&& final(self).table().len() == 1024
                &&& slots_ok(final(self).slots().update(4 * row_id + i, None))
                &&& slots_view(final(self).slots().update(4 * row_id + i, None)) == old(self)@
                &&& changed_ok(old(self).slots(), final(self).slots(), depth as int, row_id as int)
                &&& depth == 0 ==> *final(self) == *old(self) && final(self).slots()[4 * row_id
                    + i] is None
            },
        decreases depth,
    {
        proof {
            assert forall|j: int| 0 <= j < 4 implies (#[trigger] self.slots()[4 * row_id + j])
                == slot_of(self.rows@[row_id as int], j) by {
                assert((4 * row_id + j) / 4 == row_id);
                assert((4 * row_id + j) % 4 == j);
            }
        }
        match self.rows[row_id].vacancy() {
            Some(i) => {
                proof {
                    assert(self.slots()[4 * row_id + i] is None);
                    assert(self.slots().update(4 * row_id + i, None) =~= self.slots());
                }
                return Some(i);
            },
            None => {},
        }
        proof {
            assert(self.slots()[4 * row_id + 0] is Some);
            assert(self.slots()[4 * row_id + 1] is Some);
            assert(self.slots()[4 * row_id + 2] is Some);
            assert(self.slots()[4 * row_id + 3] is Some);
        }
        if depth == 0 {
            return None;
        }
        let mut i: usize = 0;
        while i < 4
            invariant
                0 <= i <= 4,
                *self == *old(self),
                self.wf(),
                row_id < 1024,
                1 <= depth <= SHIFT_DEPTH,
                !row_has_empty(self.slots(), row_id as int),
                forall|j: int|
                    0 <= j < 4 ==> (#[trigger] self.slots()[4 * row_id + j]) == slot_of(
                        self.rows@[row_id as int],
                        j,
                    ),
                forall|j: int|
                    0 <= j < i ==> !#[trigger] can_move(
                        self.slots(),
                        row_id as int,
                        j,
                        depth as nat,
                    ),
            decreases 4 - i,
        {
            let k = self.rows[row_id].keys[i];
            let (row_id1, row_id2) = Cuckoo::row_ids(&k);
            let ghost from = 4 * row_id + i;
            proof {
                assert(self.slots()[from] == slot_of(self.rows@[row_id as int], i as int));
                assert(self.slots()[from] is Some);
            }
            // An occupant with a single candidate row cannot move.
            if row_id1 != row_id2 {
                let target = if row_id2 == row_id {
                    row_id1
                } else {
                    row_id2
                };
                proof {
                    assert(home(k, row_id as int));
                    assert(target == alt_row(k, row_id as int));
                    assert(target != row_id);
                }
                let ghost before = *self;
                match self.shift(target, depth - 1) {
                    Some(slot_id) => {
                        let ghost mid = *self;
                        let ghost hole = 4 * target + slot_id;
                        let mk = self.rows[row_id].keys[i];
                        let mv = self.rows[row_id].values[i];
                        proof {
                            assert(mid.slots()[from] == slot_of(mid.rows@[row_id as int], i as int))
                                by {
                                assert((4 * row_id + i) / 4 == row_id);
                                assert((4 * row_id + i) % 4 == i);
                            }
                            assert(mid.slots()[from] is Some && home(
                                mid.slots()[from].unwrap().key,
                                target as int,
                            ));
                        }
                        self.put(target, slot_id, &mk, &mv);
                        proof {
                            let t = mid.slots().update(hole, None);
                            assert(t[from] == mid.slots()[from]);
                            assert(hole / 4 == target);
                            lemma_move(t, from, hole);
                            assert(self.slots().update(from, None) =~= t.update(
                                hole,
                                t[from],
                            ).update(from, None));
                            assert(can_move(before.slots(), row_id as int, i as int, depth as nat));
                            assert forall|n: int| 0 <= n < 4096 implies ((
                            #[trigger] self.slots()[n]) == before.slots()[n]
                                || before.slots()[n] is None || depth >= 3 || (depth == 2
                                && self.slots()[n] is Some && home(
                                self.slots()[n].unwrap().key,
                                row_id as int,
                            ))) by {
                                if n == hole {
                                    if depth == 2 {
                                        assert(mid.slots()[from] == before.slots()[from]);
                                    }
                                } else {
                                    assert(self.slots()[n] == mid.slots()[n]);
                                }
                            }
                        }
                        return Some(i);
                    },
                    None => {},
                }
            }
            i = i + 1;
        }
        proof {
            assert(!can_move(self.slots(), row_id as int, 0, depth as nat));
            assert(!can_move(self.slots(), row_id as int, 1, depth as nat));
            assert(!can_move(self.slots(), row_id as int, 2, depth as nat));
            assert(!can_move(self.slots(), row_id as int, 3, depth as nat));
        }
        None
    }
}

impl Cuckoo {
    /// Slot `i` of row `r` is slot number `4 * r + i` of the table.
    proof fn lemma_row_slots(&self, r: int)
        requires
            0 <= r < 1024,
        ensures
            forall|j: int|
                0 <= j < 4 ==> (#[trigger] self.slots()[4 * r + j]) == slot_of(self.table()[r], j),
    {
        assert forall|j: int| 0 <= j < 4 implies (#[trigger] self.slots()[4 * r + j]) == slot_of(
            self.table()[r],
            j,
        ) by {
            assert((4 * r + j) / 4 == r);
            assert((4 * r + j) % 4 == j);
        }
    }

    /// Replaces the value of `k` where row `row_id` holds the key.
    fn modify_row(&mut self, row_id: usize, k: &IPAddr, v: &IPAddr) -> (ok: bool)
        requires
            old(self).wf(),
            row_id < 1024,
            !is_zero(*k),
            home(*k, row_id as int),
        ensures
            ok <==> old(self).table()[row_id as int].find(*k) is Some,
            !ok ==> *final(self) == *old(self),
            ok ==> {
                &&& final(self).wf()
                &&& old(self)@.contains_key(*k)
                &&& final(self)@ == old(self)@.insert(*k, *v)
                &&& final(self).kick() == old(self).kick()
            },
    {
        let ghost found = self.rows@[row_id as int].find(*k);
        let r = self.rows[row_id].modify(k, v);
        proof {
            if found is Some {
                let i = found.unwrap();
                let n = 4 * row_id + i;
                let s0 = old(self).slots();
                old(self).lemma_row_slots(row_id as int);
                assert(s0[n] is Some && s0[n].unwrap().key == *k);
                lemma_view_at(s0, n);
                assert forall|m: int| holds(s0, *k, m) implies m == n by {
                    if m != n {
                        assert(s0[m].unwrap().key != s0[n].unwrap().key);
                    }
                }
                assert(n / 4 == row_id);
                lemma_overwrite(s0, n, *k, *v);
                let t = s0.update(n, entry(*k, *v));
                assert forall|m: int| 0 <= m < 4096 implies self.slots()[m] == t[m] by {
                    if m / 4 != row_id {
                        assert(self.rows@[m / 4] == old(self).rows@[m / 4]);
                    }
                }
                assert(self.slots() =~= t);
                assert(old(self)@.remove(*k).insert(*k, *v) =~= old(self)@.insert(*k, *v));
            } else {
                assert(self.rows =~= old(self).rows);
            }
        }
        r.is_ok()
    }

    /// Puts the pair into the first empty slot of row `row_id`.
    fn insert_row(&mut self, row_id: usize, k: &IPAddr, v: &IPAddr) -> (ok: bool)
        requires
            old(self).wf(),
            row_id < 1024,
            !is_zero(*k),
            home(*k, row_id as int),
            !old(self)@.contains_key(*k),
        ensures
            ok <==> row_has_empty(old(self).slots(), row_id as int),
            !ok ==> *final(self) == *old(self),
            ok ==> {
                &&& final(self).wf()
                &&& final(self)@ == old(self)@.insert(*k, *v)
                &&& final(self).kick() == old(self).kick()
            },
    {
        let ghost found = self.rows@[row_id as int].first_empty();
        proof {
            self.lemma_row_slots(row_id as int);
        }
        let r = self.rows[row_id].insert(k, v);
        proof {
            if found is Some {
                let i = found.unwrap();
                let n = 4 * row_id + i;
                let s0 = old(self).slots();
                assert(s0[n] is None);
                assert(n / 4 == row_id);
                lemma_fill(s0, n, *k, *v);
                let t = s0.update(n, entry(*k, *v));
                assert forall|m: int| 0 <= m < 4096 implies self.slots()[m] == t[m] by {
                    if m / 4 != row_id {
                        assert(self.rows@[m / 4] == old(self).rows@[m / 4]);
                    }
                }
                assert(self.slots() =~= t);
            } else {
                assert(old(self).slots()[4 * row_id + 0] is Some);
                assert(old(self).slots()[4 * row_id + 1] is Some);
                assert(old(self).slots()[4 * row_id + 2] is Some);
                assert(old(self).slots()[4 * row_id + 3] is Some);
                assert(self.rows =~= old(self).rows);
            }
        }
        r.is_ok()
    }

    /// Empties the slot of row `row_id` that holds `k`.
    fn remove_row(&mut self, row_id: usize, k: &IPAddr) -> (ok: bool)
        requires
            old(self).wf(),
            row_id < 1024,
        ensures
            ok <==> old(self).table()[row_id as int].find(*k) is Some,
            !ok ==> *final(self) == *old(self),
            ok ==> final(self)@ == old(self)@.remove(*k),
            final(self).wf(),
            final(self).kick() == old(self).kick(),
            forall|r: int|
                0 <= r < 1024 && r != row_id ==> final(self).table()[r] == old(self).table()[r],
    {
        let ghost found = self.rows@[row_id as int].find(*k);
        proof {
            self.lemma_row_slots(row_id as int);
        }
        let r = self.rows[row_id].remove(k);
        proof {
            let s0 = old(self).slots();
            if found is Some {
                let i = found.unwrap();
                let n = 4 * row_id + i;
                lemma_clear(s0, n);
                let t = s0.update(n, None);
                assert forall|m: int| 0 <= m < 4096 implies self.slots()[m] == t[m] by {
                    if m / 4 != row_id {
                        assert(self.rows@[m / 4] == old(self).rows@[m / 4]);
                    } else if m != n {
                        assert(self.rows@[row_id as int].keys[m % 4] == old(
                            self,
                        ).rows@[row_id as int].keys[m % 4]);
                    }
                }
                assert(self.slots() =~= t);
                if is_zero(*k) {
                    assert(s0[n] is None);
                }
            } else {
                assert(self.rows =~= old(self).rows);
            }
            if is_zero(*k) {
                lemma_zero_not_stored(s0, *k);
            }
            if found is Some && !is_zero(*k) {
                assert(s0[4 * row_id + found.unwrap()].unwrap().key == *k);
            }
        }
        r.is_ok()
    }

    /// Stores `v` for `k`.
    ///
    /// Where `k` is already stored its value is replaced; else the pair takes
    /// an empty slot of one of its two rows, which is made, if need be, by
    /// moving up to three occupants to their other rows. Where no room can be
    /// made, `random_evict` decides: with it the displacement counter advances
    /// and the pair overwrites the slot that it names; without it the insert
    /// fails and nothing changes.
    pub fn insert(&mut self, k: &IPAddr, v: &IPAddr, random_evict: bool) -> (r: Result<(), ()>)
        requires
            old(self).wf(),
            !is_zero(*k),
        ensures
            final(self).wf(),
            r is Ok <==> (old(self)@.contains_key(*k) || old(self).has_room(*k) || random_evict),
            r is Err ==> *final(self) == *old(self),
            r is Ok ==> (if old(self)@.contains_key(*k) || old(self).has_room(*k) {
                &&& final(self)@ == old(self)@.insert(*k, *v)
                &&& final(self).kick() == old(self).kick()
            } else {
                let n = evict_slot(old(self).kick(), *k);
                &&& final(self).kick() == (old(self).kick() + 1) % 8
                &&& final(self).slots() == old(self).slots().update(n, entry(*k, *v))
                &&& old(self).slots()[n] is Some
                &&& final(self)@ == old(self)@.remove(old(self).slots()[n].unwrap().key).insert(
                    *k,
                    *v,
                )
            }),
    {
        let (row_id1, row_id2) = Cuckoo::row_ids(k);
        proof {
            lemma_scan_is_view(self.table(), *k);
        }
        // The key may be stored already.
        if self.modify_row(row_id1, k, v) {
            return Ok(());
        }
        if self.modify_row(row_id2, k, v) {
            return Ok(());
        }
        proof {
            lemma_scan_miss(self.table(), *k);
        }
        // An empty slot in the first row, else in the second.
        if self.insert_row(row_id1, k, v) {
            return Ok(());
        }
        if self.insert_row(row_id2, k, v) {
            return Ok(());
        }
        // Make room by moving occupants to their other rows.
        match self.shift(row_id1, SHIFT_DEPTH) {
            Some(slot_id) => {
                let ghost mid = *self;
                self.put(row_id1, slot_id, k, v);
                proof {
                    let n = 4 * row_id1 + slot_id;
                    let t = mid.slots().update(n, None);
                    assert(n / 4 == row_id1);
                    lemma_fill(t, n, *k, *v);
                    assert(self.slots() =~= t.update(n, entry(*k, *v)));
                }
                return Ok(());
            },
            None => {},
        }
        match self.shift(row_id2, SHIFT_DEPTH) {
            Some(slot_id) => {
                let ghost mid = *self;
                self.put(row_id2, slot_id, k, v);
                proof {
                    let n = 4 * row_id2 + slot_id;
                    let t = mid.slots().update(n, None);
                    assert(n / 4 == row_id2);
                    lemma_fill(t, n, *k, *v);
                    assert(self.slots() =~= t.update(n, entry(*k, *v)));
                }
                return Ok(());
            },
            None => {},
        }
        if random_evict {
            let kick = self.kick;
            let bumped: u8 = kick + 1;
            assert(bumped & 7 == bumped % 8) by (bit_vector);
            let next: u8 = bumped & 7;
            self.kick = next;
            let row_id = if next <= 3 {
                row_id1
            } else {
                row_id2
            };
            assert(next & 3 == next % 4) by (bit_vector);
            let slot_id = (next & 3) as usize;
            let ghost mid = *self;
            self.put(row_id, slot_id, k, v);
            proof {
                let s0 = old(self).slots();
                let n = evict_slot(old(self).kick(), *k);
                assert(n == 4 * row_id + slot_id);
                assert(mid.slots() == s0);
                assert(n / 4 == row_id);
                old(self).lemma_row_slots(row_id as int);
                assert(s0[n] is Some);
                lemma_overwrite(s0, n, *k, *v);
            }
            return Ok(());
        }
        Err(())
    }

    /// The next hop stored for `k`: the first match in the key's first row,
    /// else the first match in its second row.
    pub fn lookup(&self, k: &IPAddr) -> (r: Option<IPAddr>)
        requires
            self.wf(),
        ensures
            r == scan_rows(self.table(), *k),
            !is_zero(*k) ==> r == (if self@.contains_key(*k) {
                Some(self@[*k])
            } else {
                None::<IPAddr>
            }),
    {
        let (row_id1, row_id2) = Cuckoo::row_ids(k);
        proof {
            if !is_zero(*k) {
                lemma_scan_is_view(self.table(), *k);
            }
        }
        match self.rows[row_id1].lookup(k) {
            Some(v) => Some(v),
            None => self.rows[row_id2].lookup(k),
        }
    }

    /// Takes `k` out of the cache. Fails when neither of its rows holds it.
    pub fn remove(&mut self, k: &IPAddr) -> (r: Result<(), ()>)
        requires
            old(self).wf(),
        ensures
            final(self).wf(),
            final(self)@ == old(self)@.remove(*k),
            final(self).kick() == old(self).kick(),
            r is Ok <==> scan_rows(old(self).table(), *k) is Some,
            !is_zero(*k) ==> (r is Ok <==> old(self)@.contains_key(*k)),
    {
        let (row_id1, row_id2) = Cuckoo::row_ids(k);
        proof {
            if !is_zero(*k) {
                lemma_scan_is_view(self.table(), *k);
            }
        }
        let first = self.remove_row(row_id1, k);
        let ghost mid = *self;
        let second = self.remove_row(row_id2, k);
        proof {
            assert(old(self)@.remove(*k).remove(*k) =~= old(self)@.remove(*k));
            if !first && !second {
                if is_zero(*k) {
                    lemma_zero_not_stored(old(self).slots(), *k);
                } else {
                    lemma_scan_miss(old(self).table(), *k);
                }
                assert(old(self)@.remove(*k) =~= old(self)@);
            }
        }
        if first || second {
            Ok(())
        } else {
            Err(())
        }
    }
}

/// The zero key is never in the view, so removing it changes nothing.
pub proof fn lemma_zero_not_stored(s: Seq<Slot>, k: IPAddr)
    requires
        slots_ok(s),
        is_zero(k),
    ensures
        !slots_view(s).contains_key(k),
        slots_view(s).remove(k) == slots_view(s),
{
    if slots_view(s).contains_key(k) {
        let m = choose|m: int| holds(s, k, m);
        assert(!is_zero(s[m].unwrap().key));
    }
    assert(slots_view(s).remove(k) =~= slots_view(s));
}

/// What the cache stores after the pairs were inserted in order, each with
/// room found or its key already there.
pub open spec fn stored(pairs: Seq<Entry>) -> Map<IPAddr, IPAddr>
    decreases pairs.len(),
{
    if pairs.len() == 0 {
        Map::empty()
    } else {
        stored(pairs.drop_last()).insert(pairs.last().key, pairs.last().value)
    }
}

/// A cache that was empty and took the pairs one by one, each time as an
/// insert with room does, stores `stored(pairs)`: `views[i]` is the view
/// after `i` inserts.
pub proof fn lemma_stored_by_inserts(views: Seq<Map<IPAddr, IPAddr>>, pairs: Seq<Entry>)
    requires
        views.len() == pairs.len() + 1,
        views[0] == Map::<IPAddr, IPAddr>::empty(),
        forall|i: int|
            0 <= i < pairs.len() ==> #[trigger] views[i + 1] == views[i].insert(
                pairs[i].key,
                pairs[i].value,
            ),
    ensures
        views.last() == stored(pairs),
    decreases pairs.len(),
{
    if pairs.len() > 0 {
        let n = pairs.len() as int;
        let init = pairs.drop_last();
        let head = views.drop_last();
        assert forall|i: int| 0 <= i < init.len() implies #[trigger] head[i + 1] == head[i].insert(
            init[i].key,
            init[i].value,
        ) by {
            assert(views[i + 1] == views[i].insert(pairs[i].key, pairs[i].value));
        }
        lemma_stored_by_inserts(head, init);
        assert(head.last() == views[n - 1]);
        assert(views[(n - 1) + 1] == views[n - 1].insert(pairs[n - 1].key, pairs[n - 1].value));
    }
}

/// Round trip. After pairs with distinct keys went in, each key is stored
/// with the value that came with it; once a key is removed it is gone, and
/// every other key still has its value.
pub proof fn lemma_round_trip(pairs: Seq<Entry>, j: int)
    requires
        0 <= j < pairs.len(),
        forall|a: int, b: int| 0 <= a < b < pairs.len() ==> pairs[a].key != pairs[b].key,
    ensures
        stored(pairs).contains_key(pairs[j].key),
        stored(pairs)[pairs[j].key] == pairs[j].value,
        !stored(pairs).remove(pairs[j].key).contains_key(pairs[j].key),
        forall|i: int|
            0 <= i < pairs.len() && i != j ==> stored(pairs).remove(pairs[j].key).contains_key(
                (#[trigger] pairs[i]).key,
            ) && stored(pairs).remove(pairs[j].key)[pairs[i].key] == pairs[i].value,
    decreases pairs.len(),
{
    lemma_stored_all(pairs);
}

/// After pairs with distinct keys went in, every one of them is stored.
pub proof fn lemma_stored_all(pairs: Seq<Entry>)
    requires
        forall|a: int, b: int| 0 <= a < b < pairs.len() ==> pairs[a].key != pairs[b].key,
    ensures
        forall|i: int|
            0 <= i < pairs.len() ==> stored(pairs).contains_key((#[trigger] pairs[i]).key)
                && stored(pairs)[pairs[i].key] == pairs[i].value,
    decreases pairs.len(),
{
    if pairs.len() > 0 {
        let init = pairs.drop_last();
        assert forall|a: int, b: int| 0 <= a < b < init.len() implies init[a].key
            != init[b].key by {
            assert(init[a] == pairs[a]);
            assert(init[b] == pairs[b]);
        }
        lemma_stored_all(init);
        assert forall|i: int| 0 <= i < pairs.len() implies stored(pairs).contains_key(
            (#[trigger] pairs[i]).key,
        ) && stored(pairs)[pairs[i].key] == pairs[i].value by {
            if i < pairs.len() - 1 {
                assert(init[i] == pairs[i]);
                assert(pairs[i].key != pairs[pairs.len() - 1].key);
            }
        }
    }
}

} // verus!
