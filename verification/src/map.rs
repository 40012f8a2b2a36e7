//! Insertion-ordered hash map — the "compact dict" layout (CPython 3.6+,
//! V8's Map): a dense vector of entries in insertion order, plus a sparse
//! index table holding positions into it. Lookups go through the index;
//! iteration walks the dense vector, so insertion order is the spec, not an
//! accident. Deletion always builds a new map (value semantics).
//!
//! The map is specified by its entry sequence (`view`): lookups find the
//! entry whose key equals the one asked for, an update keeps the entry's
//! place, a new key goes last, and removal keeps the order of the rest.

use vstd::prelude::*;

use crate::number::{is_nan_bits, is_zero_bits, num_eq};

verus! {

/// A map key: one of the primitive values. Numbers are IEEE-754 doubles
/// held as their bit patterns; a NaN is never a key.
#[derive(Debug)]
pub enum Key {
    Num(u64),
    Bool(bool),
    Str(String),
}

/// A key as the specification sees it.
pub enum KeyView {
    Num(u64),
    Bool(bool),
    Str(Seq<char>),
}

impl View for Key {
    type V = KeyView;

    open spec fn view(&self) -> KeyView {
        match self {
            Key::Num(b) => KeyView::Num(*b),
            Key::Bool(b) => KeyView::Bool(*b),
            Key::Str(s) => KeyView::Str(s@),
        }
    }
}

impl Clone for Key {
    fn clone(&self) -> (k: Self)
        ensures
            k == *self,
    {
        match self {
            Key::Num(b) => Key::Num(*b),
            Key::Bool(b) => Key::Bool(*b),
            Key::Str(s) => Key::Str(s.clone()),
        }
    }
}

/// Key equality is the language's `==`: numbers compare as doubles (so
/// `0` and `-0` are the same key), strings by their characters.
pub open spec fn key_eq(a: KeyView, b: KeyView) -> bool {
    match (a, b) {
        (KeyView::Num(x), KeyView::Num(y)) => num_eq(x, y),
        (KeyView::Bool(x), KeyView::Bool(y)) => x == y,
        (KeyView::Str(x), KeyView::Str(y)) => x == y,
        _ => false,
    }
}

/// Only a NaN is refused as a key.
pub open spec fn valid_key(k: KeyView) -> bool {
    !(k matches KeyView::Num(x) && is_nan_bits(x))
}

/// `key_eq` is an equivalence on valid keys.
pub proof fn lemma_key_eq_equivalence(a: KeyView, b: KeyView, c: KeyView)
    requires
        valid_key(a),
        valid_key(b),
        valid_key(c),
    ensures
        key_eq(a, a),
        key_eq(a, b) ==> key_eq(b, a),
        key_eq(a, b) && key_eq(b, c) ==> key_eq(a, c),
{
}

pub const FNV_BASIS: u64 = 0xcbf2_9ce4_8422_2325;

pub const FNV_PRIME: u64 = 0x0000_0100_0000_01b3;

/// One FNV-1a round.
pub open spec fn fnv_step(h: u64, b: u8) -> u64 {
    (((h ^ (b as u64)) as nat * FNV_PRIME as nat) % 0x1_0000_0000_0000_0000) as u64
}

/// FNV-1a over `bytes`, starting from `h`.
pub open spec fn fnv_spec(h: u64, bytes: Seq<u8>) -> u64
    decreases bytes.len(),
{
    if bytes.len() == 0 {
        h
    } else {
        fnv_spec(fnv_step(h, bytes[0]), bytes.drop_first())
    }
}

/// A number key with `-0` folded onto `0`, so that equal keys hash alike.
pub open spec fn normalized(b: u64) -> u64 {
    if is_zero_bits(b) {
        0
    } else {
        b
    }
}

/// The little-endian bytes of `x`.
pub open spec fn le_bytes(x: u64) -> Seq<u8> {
    Seq::new(8, |k: int| ((x >> ((8 * k) as u64)) & 0xff) as u8)
}

/// The bytes a key hashes: a type tag, then the payload.
pub open spec fn key_bytes(k: KeyView) -> Seq<u8> {
    match k {
        KeyView::Num(b) => seq![1u8] + le_bytes(normalized(b)),
        KeyView::Bool(x) => seq![2u8, if x { 1u8 } else { 0u8 }],
        KeyView::Str(s) => seq![3u8] + vstd::utf8::encode_utf8(s),
    }
}

/// FNV-1a over a type tag plus the key's payload. Deliberately unseeded:
/// deterministic hashing is safe in a closed world, because a collision
/// flood only burns the attacker's own fuel budget.
pub open spec fn key_hash(k: KeyView) -> u64 {
    fnv_spec(FNV_BASIS, key_bytes(k))
}

/// Equal keys hash alike.
pub proof fn lemma_hash_respects_eq(a: KeyView, b: KeyView)
    requires
        key_eq(a, b),
    ensures
        key_hash(a) == key_hash(b),
{
    if let (KeyView::Num(x), KeyView::Num(y)) = (a, b) {
        assert(normalized(x) == normalized(y));
    }
}

fn fnv_round(h: u64, b: u8) -> (r: u64)
    ensures
        r == fnv_step(h, b),
{
    (h ^ (b as u64)).wrapping_mul(FNV_PRIME)
}

proof fn lemma_fnv_append(h: u64, a: Seq<u8>, b: u8)
    ensures
        fnv_spec(h, a.push(b)) == fnv_step(fnv_spec(h, a), b),
    decreases a.len(),
{
    if a.len() > 0 {
        assert(a.push(b).drop_first() =~= a.drop_first().push(b));
        lemma_fnv_append(fnv_step(h, a[0]), a.drop_first(), b);
    } else {
        assert(a.push(b).drop_first() =~= Seq::<u8>::empty());
        assert(fnv_spec(fnv_step(h, b), Seq::<u8>::empty()) == fnv_step(h, b));
    }
}

/// FNV-1a of `bytes`, continuing from the hash state `h`.
pub fn fnv(h: u64, bytes: &[u8]) -> (r: u64)
    ensures
        r == fnv_spec(h, bytes@),
{
    let mut acc = h;
    let mut k: usize = 0;
    while k < bytes.len()
        invariant
            k <= bytes@.len(),
            acc == fnv_spec(h, bytes@.take(k as int)),
        decreases bytes@.len() - k,
    {
        proof {
            lemma_fnv_append(h, bytes@.take(k as int), bytes@[k as int]);
            assert(bytes@.take(k as int).push(bytes@[k as int]) =~= bytes@.take(k as int + 1));
        }
        acc = fnv_round(acc, bytes[k]);
        k = k + 1;
    }
    assert(bytes@.take(k as int) =~= bytes@);
    acc
}

proof fn lemma_fnv_concat(h: u64, a: Seq<u8>, b: Seq<u8>)
    ensures
        fnv_spec(h, a + b) == fnv_spec(fnv_spec(h, a), b),
    decreases a.len(),
{
    if a.len() == 0 {
        assert(a + b =~= b);
    } else {
        assert((a + b).drop_first() =~= a.drop_first() + b);
        lemma_fnv_concat(fnv_step(h, a[0]), a.drop_first(), b);
    }
}

fn normalize(b: u64) -> (r: u64)
    ensures
        r == normalized(b),
{
    if b & 0x7fff_ffff_ffff_ffff == 0 {
        0
    } else {
        b
    }
}

/// The hash of a key.
pub fn hash_key(k: &Key) -> (h: u64)
    ensures
        h == key_hash(k@),
{
    match k {
        Key::Num(b) => {
            let n = normalize(*b);
            let mut bytes: [u8; 8] = [0u8; 8];
            let mut i: usize = 0;
            while i < 8
                invariant
                    i <= 8,
                    forall|j: int| 0 <= j < i ==> bytes@[j] == le_bytes(n)[j],
                decreases 8 - i,
            {
                bytes[i] = ((n >> ((8 * i) as u64)) & 0xff) as u8;
                i = i + 1;
            }
            assert(bytes@ =~= le_bytes(n));
            let tag: [u8; 1] = [1u8];
            assert(tag@ =~= seq![1u8]);
            let h = fnv(FNV_BASIS, tag.as_slice());
            proof {
                lemma_fnv_concat(FNV_BASIS, seq![1u8], le_bytes(n));
            }
            fnv(h, bytes.as_slice())
        },
        Key::Bool(x) => {
            let tag: [u8; 2] = [2u8, if *x { 1u8 } else { 0u8 }];
            assert(tag@ =~= seq![2u8, if *x { 1u8 } else { 0u8 }]);
            fnv(FNV_BASIS, tag.as_slice())
        },
        Key::Str(s) => {
            let tag: [u8; 1] = [3u8];
            assert(tag@ =~= seq![3u8]);
            let h = fnv(FNV_BASIS, tag.as_slice());
            proof {
                lemma_fnv_concat(FNV_BASIS, seq![3u8], vstd::utf8::encode_utf8(s@));
            }
            fnv(h, s.as_str().as_bytes())
        },
    }
}

/// Key equality, executable.
pub fn keys_equal(a: &Key, b: &Key) -> (r: bool)
    ensures
        r == key_eq(a@, b@),
{
    match (a, b) {
        (Key::Num(x), Key::Num(y)) => crate::number::numbers_equal(*x, *y),
        (Key::Bool(x), Key::Bool(y)) => *x == *y,
        (Key::Str(x), Key::Str(y)) => String::eq(x, y),
        _ => false,
    }
}


/// Marks a free slot of the index table.
pub const EMPTY: usize = usize::MAX;

/// The map's entries as the specification sees them: keys and values in
/// insertion order.
pub type Entries<V> = Seq<(KeyView, V)>;

/// Some entry of `m` has a key equal to `k`.
pub open spec fn has_key<V>(m: Entries<V>, k: KeyView) -> bool {
    exists|p: int| 0 <= p < m.len() && key_eq(#[trigger] m[p].0, k)
}

/// The position of the entry whose key equals `k` (meaningful when `has_key`).
pub open spec fn key_pos<V>(m: Entries<V>, k: KeyView) -> int {
    choose|p: int| 0 <= p < m.len() && key_eq(#[trigger] m[p].0, k)
}

/// No two entries have equal keys, and no key is a NaN.
pub open spec fn distinct_keys<V>(m: Entries<V>) -> bool {
    &&& forall|p: int| 0 <= p < m.len() ==> valid_key(#[trigger] m[p].0)
    &&& forall|p: int, q: int| 0 <= p < q < m.len() ==> !key_eq(#[trigger] m[p].0, #[trigger] m[q].0)
}

/// The value a lookup of `k` finds.
pub open spec fn map_get<V>(m: Entries<V>, k: KeyView) -> Option<V> {
    if has_key(m, k) {
        Some(m[key_pos(m, k)].1)
    } else {
        None
    }
}

/// Insert or update: an existing key keeps its place (and its spelling) and
/// takes the new value; a new key goes last.
pub open spec fn map_insert<V>(m: Entries<V>, k: KeyView, v: V) -> Entries<V> {
    if has_key(m, k) {
        m.update(key_pos(m, k), (m[key_pos(m, k)].0, v))
    } else {
        m.push((k, v))
    }
}

/// The entries whose key is not `k`, in their order.
pub open spec fn map_without<V>(m: Entries<V>, k: KeyView) -> Entries<V>
    decreases m.len(),
{
    if m.len() == 0 {
        Seq::empty()
    } else {
        let rest = map_without(m.drop_last(), k);
        if key_eq(m.last().0, k) {
            rest
        } else {
            rest.push(m.last())
        }
    }
}

/// `b` holds the keys of `a` and clones of its values.
pub open spec fn cloned_entries<V: Clone>(a: Entries<V>, b: Entries<V>) -> bool {
    &&& a.len() == b.len()
    &&& forall|i: int| 0 <= i < a.len() ==> (#[trigger] b[i]).0 == a[i].0 && cloned(a[i].1, b[i].1)
}

/// Every entry kept by `map_without` is an entry of `m` whose key is not `k`.
pub proof fn lemma_without_from<V>(m: Entries<V>, k: KeyView)
    ensures
        map_without(m, k).len() <= m.len(),
        forall|i: int|
            0 <= i < map_without(m, k).len() ==> exists|q: int|
                0 <= q < m.len() && m[q] == #[trigger] map_without(m, k)[i] && !key_eq(m[q].0, k),
    decreases m.len(),
{
    if m.len() > 0 {
        lemma_without_from(m.drop_last(), k);
        let rest = map_without(m.drop_last(), k);
        assert forall|i: int| 0 <= i < map_without(m, k).len() implies exists|q: int|
            0 <= q < m.len() && m[q] == #[trigger] map_without(m, k)[i] && !key_eq(m[q].0, k) by {
            if i < rest.len() {
                let q = choose|q: int|
                    0 <= q < m.drop_last().len() && m.drop_last()[q] == #[trigger] rest[i] && !key_eq(
                        m.drop_last()[q].0,
                        k,
                    );
                assert(m[q] == map_without(m, k)[i]);
            } else {
                assert(m[m.len() - 1] == map_without(m, k)[i]);
            }
        }
    }
}

/// Slot `d` steps after the home slot `h`, wrapping around the table.
pub open spec fn probe(h: int, d: int, cap: int) -> int {
    if h + d < cap {
        h + d
    } else {
        h + d - cap
    }
}

/// The home slot of a key in a table of `cap` slots.
pub open spec fn home(k: KeyView, cap: int) -> int {
    (key_hash(k) as int) % cap
}

/// How many of the first `n` slots are taken.
pub open spec fn filled(idx: Seq<usize>, n: int) -> nat
    decreases n,
{
    if n <= 0 {
        0
    } else {
        filled(idx, n - 1) + if idx[n - 1] != EMPTY { 1nat } else { 0nat }
    }
}

proof fn lemma_filled_update(idx: Seq<usize>, n: int, s: int, v: usize)
    requires
        0 <= s < idx.len(),
        0 <= n <= idx.len(),
        idx[s] == EMPTY,
        v != EMPTY,
    ensures
        filled(idx.update(s, v), n) == filled(idx, n) + if s < n { 1nat } else { 0nat },
    decreases n,
{
    if n > 0 {
        lemma_filled_update(idx, n - 1, s, v);
    }
}

proof fn lemma_filled_full(idx: Seq<usize>, n: int)
    requires
        0 <= n <= idx.len(),
        forall|t: int| 0 <= t < n ==> idx[t] != EMPTY,
    ensures
        filled(idx, n) == n,
    decreases n,
{
    if n > 0 {
        lemma_filled_full(idx, n - 1);
    }
}

proof fn lemma_filled_empty(idx: Seq<usize>, n: int)
    requires
        0 <= n <= idx.len(),
        forall|t: int| 0 <= t < n ==> idx[t] == EMPTY,
    ensures
        filled(idx, n) == 0,
    decreases n,
{
    if n > 0 {
        lemma_filled_empty(idx, n - 1);
    }
}

/// Entry `p` sits `o` probe steps from its home slot, with no free slot
/// before it on the way.
pub open spec fn placed(keys: Seq<KeyView>, idx: Seq<usize>, p: int, o: int) -> bool {
    let cap = idx.len() as int;
    &&& 0 <= o < cap
    &&& idx[probe(home(keys[p], cap), o, cap)] == p
    &&& forall|d: int| 0 <= d < o ==> #[trigger] idx[probe(home(keys[p], cap), d, cap)] != EMPTY
}

/// Entry `p` is placed somewhere along its probe sequence.
pub open spec fn is_placed(keys: Seq<KeyView>, idx: Seq<usize>, p: int) -> bool {
    exists|o: int| placed(keys, idx, p, o)
}

/// The index table is consistent with the keys: every slot is free or names
/// an entry, every entry is placed along its probe sequence, and the taken
/// slots number the entries.
pub open spec fn index_wf(keys: Seq<KeyView>, idx: Seq<usize>) -> bool {
    let cap = idx.len() as int;
    &&& cap >= 8
    &&& keys.len() < cap
    &&& forall|t: int| 0 <= t < cap ==> #[trigger] idx[t] == EMPTY || idx[t] < keys.len()
    &&& forall|p: int| 0 <= p < keys.len() ==> #[trigger] is_placed(keys, idx, p)
    &&& filled(idx, cap) == keys.len()
}

/// The storage of a map: entries in insertion order and the index table.
#[derive(Debug)]
struct Table<V> {
    entries: Vec<(Key, V)>,
    /// Each slot is EMPTY or a position in `entries`.
    index: Vec<usize>,
}

impl<V> View for Table<V> {
    type V = Entries<V>;

    closed spec fn view(&self) -> Entries<V> {
        self.entries@.map_values(|e: (Key, V)| (e.0@, e.1))
    }
}

impl<V> Table<V> {
    spec fn keys(&self) -> Seq<KeyView> {
        self.entries@.map_values(|e: (Key, V)| e.0@)
    }

    /// The map's invariant: distinct valid keys, a consistent index table
    /// with room to spare, and sizes that keep the arithmetic in range.
    pub closed spec fn wf(&self) -> bool {
        &&& distinct_keys(self@)
        &&& index_wf(self.keys(), self.index@)
        &&& self.entries@.len() * 4 < self.index@.len() * 3
        &&& self.index@.len() <= 4 * self.entries@.len() + 8
    }

    proof fn lemma_views(&self)
        ensures
            self@.len() == self.entries@.len(),
            self.keys().len() == self.entries@.len(),
            forall|p: int|
                0 <= p < self.entries@.len() ==> (#[trigger] self@[p]).0 == self.entries@[p].0@
                    && self@[p].1 == self.entries@[p].1 && self.keys()[p] == self.entries@[p].0@,
    {
    }

    /// An empty map.
    pub fn new() -> (m: Self)
        ensures
            m.wf(),
            m@ == Seq::<(KeyView, V)>::empty(),
    {
        let index: Vec<usize> = vec![EMPTY; 8];
        proof {
            lemma_filled_empty(index@, 8);
        }
        let m = Table { entries: Vec::new(), index };
        assert(m@ =~= Seq::<(KeyView, V)>::empty());
        m
    }

    /// The number of entries.
    pub fn len(&self) -> (n: usize)
        ensures
            n == self@.len(),
    {
        self.entries.len()
    }

    /// The entry at position `i` in insertion order.
    pub fn entry(&self, i: usize) -> (e: (&Key, &V))
        requires
            i < self@.len(),
        ensures
            e.0@ == self@[i as int].0,
            *e.1 == self@[i as int].1,
    {
        let e = &self.entries[i];
        (&e.0, &e.1)
    }

    /// Every slot is reached by probing `cap` steps from any home slot.
    proof fn lemma_probe_covers(h: int, cap: int, t: int)
        requires
            0 <= h < cap,
            0 <= t < cap,
        ensures
            probe(h, if t >= h { t - h } else { t + cap - h }, cap) == t,
    {
    }

    /// When all of `n` probed slots are taken and `filled < cap`, fewer than
    /// `cap` slots were probed.
    proof fn lemma_probe_not_full(idx: Seq<usize>, h: int, n: int, count: nat)
        requires
            0 <= h < idx.len(),
            filled(idx, idx.len() as int) == count,
            count < idx.len(),
            0 <= n <= idx.len(),
            forall|d: int| 0 <= d < n ==> #[trigger] idx[probe(h, d, idx.len() as int)] != EMPTY,
        ensures
            n < idx.len(),
    {
        let cap = idx.len() as int;
        if n == cap {
            assert forall|t: int| 0 <= t < cap implies idx[t] != EMPTY by {
                Self::lemma_probe_covers(h, cap, t);
                let d = if t >= h { t - h } else { t + cap - h };
                assert(idx[probe(h, d, cap)] != EMPTY);
            }
            lemma_filled_full(idx, cap);
        }
    }

    /// The home slot of `key`, executable.
    fn home_slot(key: &Key, cap: usize) -> (h: usize)
        requires
            cap > 0,
        ensures
            h == home(key@, cap as int),
            h < cap,
    {
        (hash_key(key) % (cap as u64)) as usize
    }

    /// Look up the value stored under a key equal to `key`.
    pub fn get(&self, key: &Key) -> (r: Option<&V>)
        requires
            self.wf(),
            valid_key(key@),
        ensures
            match r {
                Some(v) => map_get(self@, key@) == Some(*v),
                None => map_get(self@, key@) is None,
            },
    {
        proof {
            self.lemma_views();
        }
        let cap = self.index.len();
        let h = Self::home_slot(key, cap);
        let mut i = h;
        let mut n: usize = 0;
        loop
            invariant
                self.wf(),
                valid_key(key@),
                cap == self.index@.len(),
                h == home(key@, cap as int),
                h < cap,
                n < cap,
                i == probe(h as int, n as int, cap as int),
                forall|d: int|
                    0 <= d < n ==> #[trigger] self.index@[probe(h as int, d, cap as int)] != EMPTY
                        && !key_eq(self.keys()[self.index@[probe(h as int, d, cap as int)] as int], key@),
            decreases cap - n,
        {
            let slot = self.index[i];
            if slot == EMPTY {
                proof {
                    if has_key(self@, key@) {
                        let p = key_pos(self@, key@);
                        lemma_hash_respects_eq(self.keys()[p], key@);
                        assert(is_placed(self.keys(), self.index@, p));
                        let o = choose|o: int| placed(self.keys(), self.index@, p, o);
                        if o < n {
                            assert(self.index@[probe(h as int, o, cap as int)] != EMPTY);
                        } else if o > n {
                            assert(self.index@[probe(h as int, n as int, cap as int)] != EMPTY);
                        }
                    }
                }
                return None;
            }
            if keys_equal(&self.entries[slot].0, key) {
                proof {
                    assert(key_eq(self@[slot as int].0, key@));
                    assert(has_key(self@, key@));
                    let p = key_pos(self@, key@);
                    lemma_key_eq_equivalence(self.keys()[p], key@, self.keys()[slot as int]);
                    if p != slot {
                        if p < slot {
                            assert(!key_eq(self@[p].0, self@[slot as int].0));
                        } else {
                            assert(!key_eq(self@[slot as int].0, self@[p].0));
                            lemma_key_eq_equivalence(self.keys()[slot as int], key@, self.keys()[p]);
                        }
                    }
                }
                return Some(&self.entries[slot].1);
            }
            proof {
                Self::lemma_probe_not_full(self.index@, h as int, n as int + 1, self.keys().len());
            }
            n = n + 1;
            i = if i + 1 == cap {
                0
            } else {
                i + 1
            };
        }
    }

    /// Replace the index table by one of `capacity` slots, re-placing every
    /// entry in insertion order.
    fn rebuild_index(&mut self, capacity: usize)
        requires
            distinct_keys(old(self)@),
            old(self)@.len() < capacity,
            capacity >= 8,
        ensures
            final(self).entries == old(self).entries,
            final(self).index@.len() == capacity,
            index_wf(final(self).keys(), final(self).index@),
    {
        proof {
            self.lemma_views();
        }
        let len = self.entries.len();
        let mut index: Vec<usize> = vec![EMPTY; capacity];
        let ghost mut offs: Seq<int> = Seq::empty();
        proof {
            lemma_filled_empty(index@, capacity as int);
        }
        let mut pos: usize = 0;
        while pos < len
            invariant
                self.entries == old(self).entries,
                self.keys() == old(self).keys(),
                len == self.entries@.len(),
                len < capacity,
                capacity >= 8,
                pos <= len,
                index@.len() == capacity,
                offs.len() == pos,
                forall|t: int| 0 <= t < capacity ==> #[trigger] index@[t] == EMPTY || index@[t] < pos,
                forall|p: int|
                    0 <= p < pos ==> {
                        &&& 0 <= #[trigger] offs[p] < capacity
                        &&& index@[probe(home(self.keys()[p], capacity as int), offs[p], capacity as int)]
                            == p
                        &&& forall|d: int|
                            0 <= d < offs[p] ==> #[trigger] index@[probe(
                                home(self.keys()[p], capacity as int),
                                d,
                                capacity as int,
                            )] != EMPTY
                    },
                filled(index@, capacity as int) == pos,
            decreases len - pos,
        {
            proof {
                self.lemma_views();
            }
            let h = Self::home_slot(&self.entries[pos].0, capacity);
            let mut i = h;
            let mut n: usize = 0;
            while index[i] != EMPTY
                invariant
                    index@.len() == capacity,
                    filled(index@, capacity as int) == pos,
                    pos < capacity,
                    h < capacity,
                    n < capacity,
                    i == probe(h as int, n as int, capacity as int),
                    forall|d: int|
                        0 <= d < n ==> #[trigger] index@[probe(h as int, d, capacity as int)] != EMPTY,
                decreases capacity - n,
            {
                proof {
                    Self::lemma_probe_not_full(index@, h as int, n as int + 1, pos as nat);
                }
                n = n + 1;
                i = if i + 1 == capacity {
                    0
                } else {
                    i + 1
                };
            }
            proof {
                lemma_filled_update(index@, capacity as int, i as int, pos);
            }
            let ghost before = index@;
            index.set(i, pos);
            proof {
                offs = offs.push(n as int);
                assert forall|p: int| 0 <= p < pos + 1 implies {
                    &&& 0 <= #[trigger] offs[p] < capacity
                    &&& index@[probe(home(self.keys()[p], capacity as int), offs[p], capacity as int)] == p
                    &&& forall|d: int|
                        0 <= d < offs[p] ==> #[trigger] index@[probe(
                            home(self.keys()[p], capacity as int),
                            d,
                            capacity as int,
                        )] != EMPTY
                } by {
                    if p < pos {
                        assert(before[probe(home(self.keys()[p], capacity as int), offs[p], capacity as int)]
                            == p);
                    }
                }
            }
            pos = pos + 1;
        }
        self.index = index;
        assert forall|p: int| 0 <= p < self.keys().len() implies #[trigger] is_placed(
            self.keys(),
            self.index@,
            p,
        ) by {
            assert(placed(self.keys(), self.index@, p, offs[p]));
        }
    }

    /// Insert or update. Updating never moves an entry: the key keeps its
    /// first insertion position (and spelling).
    pub fn insert(&mut self, key: Key, value: V)
        requires
            old(self).wf(),
            valid_key(key@),
            old(self)@.len() < usize::MAX / 16,
        ensures
            final(self).wf(),
            final(self)@ == map_insert(old(self)@, key@, value),
    {
        proof {
            self.lemma_views();
        }
        // Grow first, keeping the load factor under 3/4 so probing always
        // terminates.
        if (self.entries.len() + 1) * 4 >= self.index.len() * 3 {
            let cap = self.index.len() * 2;
            self.rebuild_index(cap);
        }
        proof {
            self.lemma_views();
        }
        let cap = self.index.len();
        let len = self.entries.len();
        let h = Self::home_slot(&key, cap);
        let mut i = h;
        let mut n: usize = 0;
        loop
            invariant
                distinct_keys(self@),
                index_wf(self.keys(), self.index@),
                self@ == old(self)@,
                len == self.entries@.len(),
                (len + 1) * 4 < cap * 3,
                cap <= 4 * len + 8,
                valid_key(key@),
                cap == self.index@.len(),
                h == home(key@, cap as int),
                h < cap,
                n < cap,
                i == probe(h as int, n as int, cap as int),
                forall|d: int|
                    0 <= d < n ==> #[trigger] self.index@[probe(h as int, d, cap as int)] != EMPTY
                        && !key_eq(self.keys()[self.index@[probe(h as int, d, cap as int)] as int], key@),
            decreases cap - n,
        {
            proof {
                self.lemma_views();
            }
            let slot = self.index[i];
            if slot == EMPTY {
                proof {
                    if has_key(self@, key@) {
                        let p = key_pos(self@, key@);
                        lemma_hash_respects_eq(self.keys()[p], key@);
                        assert(is_placed(self.keys(), self.index@, p));
                        let o = choose|o: int| placed(self.keys(), self.index@, p, o);
                        if o < n {
                            assert(self.index@[probe(h as int, o, cap as int)] != EMPTY);
                        } else if o > n {
                            assert(self.index@[probe(h as int, n as int, cap as int)] != EMPTY);
                        }
                    }
                    lemma_filled_update(self.index@, cap as int, i as int, len);
                }
                let ghost old_index = self.index@;
                let ghost old_keys = self.keys();
                self.index.set(i, len);
                self.entries.push((key, value));
                proof {
                    self.lemma_views();
                    assert(self.keys() =~= old_keys.push(key@));
                    assert(self@ =~= old(self)@.push((key@, value)));
                    assert forall|p: int| 0 <= p < self.keys().len() implies #[trigger] is_placed(
                        self.keys(),
                        self.index@,
                        p,
                    ) by {
                        if p < len {
                            assert(is_placed(old_keys, old_index, p));
                            let o = choose|o: int| placed(old_keys, old_index, p, o);
                            assert(placed(self.keys(), self.index@, p, o));
                        } else {
                            assert(placed(self.keys(), self.index@, p, n as int));
                        }
                    }
                    assert forall|p: int, q: int| 0 <= p < q < self@.len() implies !key_eq(
                        #[trigger] self@[p].0,
                        #[trigger] self@[q].0,
                    ) by {
                        if q == len {
                            if key_eq(self@[p].0, key@) {
                                assert(has_key(old(self)@, key@));
                            }
                        }
                    }
                }
                return;
            }
            if keys_equal(&self.entries[slot].0, &key) {
                proof {
                    assert(key_eq(self@[slot as int].0, key@));
                    assert(has_key(self@, key@));
                    let p = key_pos(self@, key@);
                    lemma_key_eq_equivalence(self.keys()[p], key@, self.keys()[slot as int]);
                    if p != slot {
                        if p < slot {
                            assert(!key_eq(self@[p].0, self@[slot as int].0));
                        } else {
                            assert(!key_eq(self@[slot as int].0, self@[p].0));
                            lemma_key_eq_equivalence(self.keys()[slot as int], key@, self.keys()[p]);
                        }
                    }
                }
                let stored = self.entries[slot].0.clone();
                let ghost old_keys = self.keys();
                self.entries.set(slot, (stored, value));
                proof {
                    self.lemma_views();
                    assert(self.keys() =~= old_keys);
                    assert(self@ =~= old(self)@.update(slot as int, (old(self)@[slot as int].0, value)));
                }
                return;
            }
            proof {
                Self::lemma_probe_not_full(self.index@, h as int, n as int + 1, self.keys().len());
            }
            n = n + 1;
            i = if i + 1 == cap {
                0
            } else {
                i + 1
            };
        }
    }

    /// A copy without `key`, preserving the insertion order of the others.
    /// A copy: the same keys and index, clones of the values.
    fn duplicate(&self) -> (m: Table<V>)
        where
            V: Clone,
        requires
            self.wf(),
        ensures
            m.wf(),
            cloned_entries(self@, m@),
    {
        proof {
            self.lemma_views();
        }
        let mut entries: Vec<(Key, V)> = Vec::new();
        let len = self.entries.len();
        let mut i: usize = 0;
        while i < len
            invariant
                len == self.entries@.len(),
                i <= len,
                entries@.len() == i,
                forall|j: int|
                    0 <= j < i ==> (#[trigger] entries@[j]).0@ == self.entries@[j].0@ && cloned(
                        self.entries@[j].1,
                        entries@[j].1,
                    ),
            decreases len - i,
        {
            let k = self.entries[i].0.clone();
            let v = self.entries[i].1.clone();
            entries.push((k, v));
            i = i + 1;
        }
        let mut index: Vec<usize> = Vec::new();
        let cap = self.index.len();
        let mut j: usize = 0;
        while j < cap
            invariant
                cap == self.index@.len(),
                j <= cap,
                index@ == self.index@.take(j as int),
            decreases cap - j,
        {
            index.push(self.index[j]);
            assert(self.index@.take(j as int + 1) =~= self.index@.take(j as int).push(
                self.index@[j as int],
            ));
            j = j + 1;
        }
        assert(self.index@.take(cap as int) =~= self.index@);
        let m = Table { entries, index };
        proof {
            m.lemma_views();
            assert(m.keys() =~= self.keys());
            assert(m.index@ == self.index@);
            assert(forall|p: int| 0 <= p < m@.len() ==> (#[trigger] m@[p]).0 == self@[p].0);
            assert(distinct_keys(m@));
            assert(index_wf(m.keys(), m.index@));
        }
        m
    }

    fn without(&self, key: &Key) -> (m: Table<V>)
        where
            V: Clone,
        requires
            self.wf(),
            valid_key(key@),
            self@.len() < usize::MAX / 16,
        ensures
            m.wf(),
            cloned_entries(map_without(self@, key@), m@),
    {
        proof {
            self.lemma_views();
        }
        let mut m = Table::new();
        let len = self.entries.len();
        let mut pos: usize = 0;
        while pos < len
            invariant
                self.wf(),
                valid_key(key@),
                len == self@.len(),
                len < usize::MAX / 16,
                pos <= len,
                m.wf(),
                cloned_entries(map_without(self@.take(pos as int), key@), m@),
            decreases len - pos,
        {
            proof {
                self.lemma_views();
                assert(self@.take(pos as int + 1).drop_last() =~= self@.take(pos as int));
                lemma_without_from(self@.take(pos as int), key@);
            }
            let (k, v) = self.entry(pos);
            if !keys_equal(k, key) {
                let ghost before = m@;
                proof {
                    let w = map_without(self@.take(pos as int), key@);
                    if has_key(m@, k@) {
                        let i = key_pos(m@, k@);
                        let q = choose|q: int|
                            0 <= q < self@.take(pos as int).len() && self@.take(pos as int)[q] == #[trigger] w[i]
                                && !key_eq(self@.take(pos as int)[q].0, key@);
                        assert(self@[q].0 == m@[i].0);
                        assert(!key_eq(self@[q].0, self@[pos as int].0));
                    }
                }
                let kc = k.clone();
                let vc = v.clone();
                assert(cloned(*v, vc));
                m.insert(kc, vc);
                proof {
                    assert(m@ == before.push((k@, vc)));
                    let w0 = map_without(self@.take(pos as int), key@);
                    assert(map_without(self@.take(pos as int + 1), key@) == w0.push(self@[pos as int]));
                }
            } else {
                proof {
                    assert(map_without(self@.take(pos as int + 1), key@) == map_without(
                        self@.take(pos as int),
                        key@,
                    ));
                }
            }
            pos = pos + 1;
        }
        assert(self@.take(len as int) =~= self@);
        m
    }

    /// Each value stored in the map is structurally smaller than the map.
    pub proof fn lemma_entry_decreases(&self, i: int)
        requires
            0 <= i < self@.len(),
        ensures
            decreases_to!(*self => self@[i].1),
    {
        assert(decreases_to!(*self => self.entries));
        assert(decreases_to!(self.entries => self.entries@));
        assert(decreases_to!(self.entries@ => self.entries@[i]));
        assert(decreases_to!(self.entries@[i] => self.entries@[i].1));
    }
}


/// An insertion-ordered map from primitive keys to `V`.
#[derive(Debug)]
pub struct PlayMap<V> {
    table: Table<V>,
}

impl<V> View for PlayMap<V> {
    type V = Entries<V>;

    closed spec fn view(&self) -> Entries<V> {
        self.table@
    }
}

impl<V> PlayMap<V> {
    /// Every map keeps its invariant: distinct valid keys and a consistent
    /// index table.
    #[verifier::type_invariant]
    closed spec fn well_formed(&self) -> bool {
        self.table.wf()
    }

    /// An empty map.
    pub fn new() -> (m: Self)
        ensures
            m@ == Seq::<(KeyView, V)>::empty(),
    {
        PlayMap { table: Table::new() }
    }

    /// The number of entries. (Every map has distinct keys, none of them a
    /// NaN.)
    pub fn len(&self) -> (n: usize)
        ensures
            n == self@.len(),
            distinct_keys(self@),
    {
        proof {
            use_type_invariant(self);
        }
        self.table.len()
    }

    /// The entry at position `i` in insertion order.
    pub fn entry(&self, i: usize) -> (e: (&Key, &V))
        requires
            i < self@.len(),
        ensures
            e.0@ == self@[i as int].0,
            *e.1 == self@[i as int].1,
    {
        self.table.entry(i)
    }

    /// Look up the value stored under a key equal to `key`.
    pub fn get(&self, key: &Key) -> (r: Option<&V>)
        ensures
            match r {
                Some(v) => map_get(self@, key@) == Some(*v),
                None => map_get(self@, key@) is None,
            },
    {
        proof {
            use_type_invariant(self);
        }
        match key {
            Key::Num(n) => {
                if crate::number::is_nan(*n) {
                    // A NaN equals nothing, so no key matches it.
                    assert(!has_key(self@, key@));
                    return None;
                }
            },
            _ => {},
        }
        self.table.get(key)
    }

    /// Insert or update. Updating never moves an entry: the key keeps its
    /// first insertion position (and spelling).
    pub fn insert(&mut self, key: Key, value: V)
        requires
            valid_key(key@),
            old(self)@.len() < usize::MAX / 16,
        ensures
            final(self)@ == map_insert(old(self)@, key@, value),
    {
        proof {
            use_type_invariant(&*self);
        }
        let mut t = Table::new();
        std::mem::swap(&mut self.table, &mut t);
        t.insert(key, value);
        self.table = t;
    }

    /// The entries in insertion order — the contractual iteration order.
    pub fn iter(&self) -> (v: Vec<(&Key, &V)>)
        ensures
            v@.len() == self@.len(),
            forall|i: int|
                0 <= i < v@.len() ==> (#[trigger] v@[i]).0@ == self@[i].0 && *v@[i].1 == self@[i].1,
    {
        let mut v: Vec<(&Key, &V)> = Vec::new();
        let n = self.len();
        let mut i: usize = 0;
        while i < n
            invariant
                n == self@.len(),
                i <= n,
                v@.len() == i,
                forall|j: int|
                    0 <= j < i ==> (#[trigger] v@[j]).0@ == self@[j].0 && *v@[j].1 == self@[j].1,
            decreases n - i,
        {
            v.push(self.entry(i));
            i = i + 1;
        }
        v
    }

    /// A copy: the same entries in the same order, values cloned.
    pub fn duplicate(&self) -> (m: PlayMap<V>)
        where
            V: Clone,
        ensures
            cloned_entries(self@, m@),
    {
        proof {
            use_type_invariant(self);
        }
        PlayMap { table: self.table.duplicate() }
    }

    /// A copy without `key`, preserving the insertion order of the others.
    pub fn without(&self, key: &Key) -> (m: PlayMap<V>)
        where
            V: Clone,
        requires
            valid_key(key@),
            self@.len() < usize::MAX / 16,
        ensures
            cloned_entries(map_without(self@, key@), m@),
    {
        proof {
            use_type_invariant(self);
        }
        PlayMap { table: self.table.without(key) }
    }

    /// Each value stored in the map is structurally smaller than the map.
    pub proof fn lemma_entry_decreases(&self, i: int)
        requires
            0 <= i < self@.len(),
        ensures
            decreases_to!(*self => self@[i].1),
    {
        self.table.lemma_entry_decreases(i);
        assert(decreases_to!(*self => self.table));
    }
}

} // verus!
