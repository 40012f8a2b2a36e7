//! Properties of the library as a whole: what the operations promise of
//! one another. Each is stated over the models that the operations' own
//! contracts use.

use vstd::prelude::*;

use crate::env::{ScopeView, bind, lemma_scope_of, lemma_slot_of, lookup, rebind, scope_of, slot_of};
use crate::map::{
    Entries,
    KeyView,
    distinct_keys,
    has_key,
    key_eq,
    key_pos,
    lemma_key_eq_equivalence,
    map_get,
    map_insert,
    map_without,
    valid_key,
};
use crate::number::{SIGN_BIT, is_nan_bits, is_zero_bits, num_eq};
use crate::interp::written;
use crate::value::Value;

verus! {

/// In a map with distinct keys, the entry a key finds is the only one
/// whose key equals it.
proof fn lemma_key_pos_unique<V>(m: Entries<V>, k: KeyView, q: int)
    requires
        distinct_keys(m),
        valid_key(k),
        0 <= q < m.len(),
        key_eq(m[q].0, k),
    ensures
        has_key(m, k),
        key_pos(m, k) == q,
{
    let p = key_pos(m, k);
    assert(key_eq(m[p].0, k));
    if p != q {
        lemma_key_eq_equivalence(m[p].0, k, m[q].0);
        lemma_key_eq_equivalence(k, m[q].0, m[p].0);
        lemma_key_eq_equivalence(m[q].0, k, m[p].0);
        if p < q {
            assert(!key_eq(m[p].0, m[q].0));
        } else {
            assert(!key_eq(m[q].0, m[p].0));
        }
    }
}

/// Reading a key right after writing it gives the value written.
pub proof fn law_get_after_insert<V>(m: Entries<V>, k: KeyView, v: V)
    requires
        distinct_keys(m),
        valid_key(k),
    ensures
        map_get(map_insert(m, k, v), k) == Some(v),
{
    let n = map_insert(m, k, v);
    if has_key(m, k) {
        let p = key_pos(m, k);
        assert(key_eq(n[p].0, k));
        assert(distinct_keys(n)) by {
            assert forall|i: int| 0 <= i < n.len() implies (#[trigger] n[i]).0 == m[i].0 by {}
        }
        lemma_key_pos_unique(n, k, p);
    } else {
        let p = m.len() as int;
        lemma_key_eq_equivalence(k, k, k);
        assert(key_eq(n[p].0, k));
        assert(distinct_keys(n)) by {
            assert forall|i: int, j: int| 0 <= i < j < n.len() implies !key_eq(
                #[trigger] n[i].0,
                #[trigger] n[j].0,
            ) by {
                if j == p {
                    assert(!key_eq(m[i].0, k));
                    if key_eq(n[i].0, n[j].0) {
                        lemma_key_eq_equivalence(n[i].0, k, k);
                    }
                } else {
                    assert(n[i] == m[i] && n[j] == m[j]);
                }
            }
        }
        lemma_key_pos_unique(n, k, p);
    }
}

/// Writing one key leaves what every other key reads unchanged.
pub proof fn law_get_after_insert_other<V>(m: Entries<V>, k: KeyView, j: KeyView, v: V)
    requires
        distinct_keys(m),
        valid_key(k),
        valid_key(j),
        !key_eq(k, j),
    ensures
        map_get(map_insert(m, k, v), j) == map_get(m, j),
{
    let n = map_insert(m, k, v);
    assert forall|i: int| 0 <= i < m.len() implies (#[trigger] n[i]).0 == m[i].0 by {}
    if has_key(m, j) {
        let q = key_pos(m, j);
        assert(key_eq(m[q].0, j));
        if has_key(m, k) {
            let p = key_pos(m, k);
            if p == q {
                lemma_key_eq_equivalence(m[p].0, k, j);
                lemma_key_eq_equivalence(k, m[p].0, j);
                lemma_key_eq_equivalence(m[p].0, k, m[p].0);
                assert(key_eq(k, m[p].0));
                assert(false);
            }
        }
        assert(n[q] == m[q]);
        assert(distinct_keys(n)) by {
            law_insert_keeps_distinct(m, k, v);
        }
        lemma_key_pos_unique(n, j, q);
        lemma_key_pos_unique(m, j, q);
    } else {
        if has_key(n, j) {
            let q = choose|q: int| 0 <= q < n.len() && key_eq(#[trigger] n[q].0, j);
            if q < m.len() {
                assert(key_eq(m[q].0, j));
            } else {
                assert(n[q].0 == k);
                assert(!has_key(m, k));
            }
        }
    }
}

/// An insert keeps the keys distinct.
pub proof fn law_insert_keeps_distinct<V>(m: Entries<V>, k: KeyView, v: V)
    requires
        distinct_keys(m),
        valid_key(k),
    ensures
        distinct_keys(map_insert(m, k, v)),
{
    let n = map_insert(m, k, v);
    if has_key(m, k) {
        assert forall|i: int| 0 <= i < n.len() implies (#[trigger] n[i]).0 == m[i].0 by {}
    } else {
        let p = m.len() as int;
        assert forall|i: int, j: int| 0 <= i < j < n.len() implies !key_eq(
            #[trigger] n[i].0,
            #[trigger] n[j].0,
        ) by {
            if j == p {
                assert(!key_eq(m[i].0, k));
            } else {
                assert(n[i] == m[i] && n[j] == m[j]);
            }
        }
    }
}

/// An update never moves an entry: the keys stay in their positions; a new
/// key goes last. (Iteration order is insertion order.)
pub proof fn law_insert_order<V>(m: Entries<V>, k: KeyView, v: V)
    ensures
        has_key(m, k) ==> map_insert(m, k, v).len() == m.len() && forall|i: int|
            0 <= i < m.len() ==> (#[trigger] map_insert(m, k, v)[i]).0 == m[i].0,
        !has_key(m, k) ==> map_insert(m, k, v) == m.push((k, v)),
{
}

/// Removing a key keeps the other keys distinct.
proof fn lemma_without_distinct<V>(m: Entries<V>, k: KeyView)
    requires
        distinct_keys(m),
    ensures
        distinct_keys(map_without(m, k)),
    decreases m.len(),
{
    if m.len() > 0 {
        let rest = m.drop_last();
        assert(distinct_keys(rest)) by {
            assert forall|i: int| 0 <= i < rest.len() implies #[trigger] rest[i] == m[i] by {}
        }
        lemma_without_distinct(rest, k);
        crate::map::lemma_without_from(rest, k);
        let wr = map_without(rest, k);
        let n = m.len() - 1;
        if !key_eq(m.last().0, k) {
            let w = wr.push(m.last());
            assert(map_without(m, k) == w);
            assert forall|a: int, b: int| 0 <= a < b < w.len() implies !key_eq(
                #[trigger] w[a].0,
                #[trigger] w[b].0,
            ) by {
                if b == w.len() - 1 {
                    let r = choose|r: int|
                        0 <= r < rest.len() && rest[r] == #[trigger] wr[a] && !key_eq(rest[r].0, k);
                    assert(m[r] == rest[r]);
                    assert(!key_eq(m[r].0, m[n].0));
                } else {
                    assert(w[a] == wr[a] && w[b] == wr[b]);
                }
            }
            assert forall|i: int| 0 <= i < w.len() implies valid_key(#[trigger] w[i].0) by {
                if i < wr.len() {
                    assert(w[i] == wr[i]);
                }
            }
        }
    }
}

/// After removing a key, it reads as absent, and every other key reads as
/// before.
pub proof fn law_get_after_without<V>(m: Entries<V>, k: KeyView, j: KeyView)
    requires
        distinct_keys(m),
        valid_key(k),
        valid_key(j),
    ensures
        key_eq(j, k) ==> map_get(map_without(m, k), j) is None,
        !key_eq(j, k) ==> map_get(map_without(m, k), j) == map_get(m, j),
    decreases m.len(),
{
    let w = map_without(m, k);
    crate::map::lemma_without_from(m, k);
    if key_eq(j, k) {
        if has_key(w, j) {
            let q = choose|q: int| 0 <= q < w.len() && key_eq(#[trigger] w[q].0, j);
            let r = choose|r: int|
                0 <= r < m.len() && m[r] == #[trigger] w[q] && !key_eq(m[r].0, k);
            lemma_key_eq_equivalence(m[r].0, j, k);
            assert(false);
        }
    } else if m.len() > 0 {
        let rest = m.drop_last();
        assert(distinct_keys(rest)) by {
            assert forall|i: int| 0 <= i < rest.len() implies #[trigger] rest[i] == m[i] by {}
        }
        law_get_after_without(rest, k, j);
        let last = m.last();
        let n = m.len() - 1;
        if key_eq(last.0, k) {
            // The last entry goes; it was not `j`'s.
            assert(w == map_without(rest, k));
            if has_key(m, j) {
                let q = key_pos(m, j);
                if q == n {
                    lemma_key_eq_equivalence(j, last.0, k);
                    lemma_key_eq_equivalence(last.0, j, k);
                    assert(false);
                }
                assert(rest[q] == m[q]);
                lemma_key_pos_unique(rest, j, q);
            } else {
                if has_key(rest, j) {
                    let q = key_pos(rest, j);
                    assert(m[q] == rest[q]);
                }
            }
        } else {
            // The last entry stays, last.
            assert(w == map_without(rest, k).push(last));
            let wr = map_without(rest, k);
            crate::map::lemma_without_from(rest, k);
            lemma_without_distinct(m, k);
            if key_eq(last.0, j) {
                lemma_key_pos_unique(m, j, n);
                lemma_key_pos_unique(w, j, w.len() - 1);
            } else {
                if has_key(m, j) {
                    let q = key_pos(m, j);
                    assert(q != n);
                    assert(rest[q] == m[q]);
                    lemma_key_pos_unique(rest, j, q);
                    let wq = key_pos(wr, j);
                    assert(w[wq] == wr[wq]);
                    lemma_key_pos_unique(w, j, wq);
                } else {
                    if has_key(rest, j) {
                        let q = key_pos(rest, j);
                        assert(m[q] == rest[q]);
                    }
                    if has_key(w, j) {
                        let q = choose|q: int| 0 <= q < w.len() && key_eq(#[trigger] w[q].0, j);
                        if q < wr.len() {
                            assert(w[q] == wr[q]);
                        }
                    }
                }
            }
        }
    }
}

/// `slot_of` looks at names only.
proof fn lemma_slot_names(s: ScopeView, t: ScopeView, name: Seq<char>)
    requires
        s.len() == t.len(),
        forall|i: int| 0 <= i < s.len() ==> (#[trigger] s[i]).0 == t[i].0,
    ensures
        slot_of(s, name) == slot_of(t, name),
    decreases s.len(),
{
    if s.len() > 0 {
        lemma_slot_names(s.drop_last(), t.drop_last(), name);
    }
}

/// `scope_of` looks only at which scopes bind the name.
proof fn lemma_scope_binds(a: Seq<ScopeView>, b: Seq<ScopeView>, name: Seq<char>)
    requires
        a.len() == b.len(),
        forall|e: int|
            0 <= e < a.len() ==> (slot_of(#[trigger] a[e], name) >= 0) == (slot_of(b[e], name)
                >= 0),
    ensures
        scope_of(a, name) == scope_of(b, name),
    decreases a.len(),
{
    if a.len() > 0 {
        lemma_scope_binds(a.drop_last(), b.drop_last(), name);
    }
}

/// What a scope reads for `other` after `var name = v`.
proof fn lemma_bind_slots(s: ScopeView, name: Seq<char>, other: Seq<char>, v: Value)
    ensures
        slot_of(bind(s, name, v), name) >= 0,
        bind(s, name, v)[slot_of(bind(s, name, v), name)] == (name, v),
        other != name ==> slot_of(bind(s, name, v), other) == slot_of(s, other),
{
    lemma_slot_of(s, name);
    let p = slot_of(s, name);
    let t = bind(s, name, v);
    if p < 0 {
        assert(t.drop_last() =~= s);
    } else {
        lemma_slot_names(s, t, name);
        lemma_slot_names(s, t, other);
    }
}

/// A read right after `var name = v` gives `v`.
pub proof fn law_read_after_declare(scopes: Seq<ScopeView>, name: Seq<char>, v: Value)
    requires
        scopes.len() > 0,
    ensures
        lookup(scopes.update(scopes.len() - 1, bind(scopes.last(), name, v)), name) == Some(v),
{
    let t = scopes.update(scopes.len() - 1, bind(scopes.last(), name, v));
    lemma_bind_slots(scopes.last(), name, name, v);
    assert(t.last() == bind(scopes.last(), name, v));
}

/// `var name = v` does not change what any other name reads.
pub proof fn law_declare_keeps_others(
    scopes: Seq<ScopeView>,
    name: Seq<char>,
    other: Seq<char>,
    v: Value,
)
    requires
        scopes.len() > 0,
        other != name,
    ensures
        lookup(scopes.update(scopes.len() - 1, bind(scopes.last(), name, v)), other) == lookup(
            scopes,
            other,
        ),
{
    let n = scopes.len() - 1;
    let t = scopes.update(n, bind(scopes.last(), name, v));
    lemma_bind_slots(scopes.last(), name, other, v);
    lemma_scope_binds(scopes, t, other);
    lemma_scope_of(scopes, other);
    let d = scope_of(scopes, other);
    if d == n {
        let s = scopes.last();
        let p = slot_of(s, other);
        lemma_slot_of(s, other);
        if slot_of(s, name) < 0 {
            assert(bind(s, name, v)[p] == s[p]);
        } else {
            lemma_slot_of(s, name);
            assert(bind(s, name, v)[p] == s[p]);
        }
    }
}

/// A read right after `name = v` (of a bound name) gives `v`.
pub proof fn law_read_after_assign(scopes: Seq<ScopeView>, name: Seq<char>, v: Value)
    requires
        scope_of(scopes, name) >= 0,
    ensures
        lookup(rebind(scopes, name, v), name) == Some(v),
{
    lemma_scope_of(scopes, name);
    let d = scope_of(scopes, name);
    let s = scopes[d];
    lemma_slot_of(s, name);
    let p = slot_of(s, name);
    let t = rebind(scopes, name, v);
    let u = s.update(p, (name, v));
    lemma_slot_names(s, u, name);
    assert forall|e: int| 0 <= e < scopes.len() implies (slot_of(#[trigger] scopes[e], name) >= 0)
        == (slot_of(t[e], name) >= 0) by {
        if e == d {
            assert(t[e] == u);
        }
    }
    lemma_scope_binds(scopes, t, name);
}

/// Assigning one name does not change what any other name reads.
pub proof fn law_assign_keeps_others(
    scopes: Seq<ScopeView>,
    name: Seq<char>,
    other: Seq<char>,
    v: Value,
)
    requires
        scope_of(scopes, name) >= 0,
        other != name,
    ensures
        lookup(rebind(scopes, name, v), other) == lookup(scopes, other),
{
    lemma_scope_of(scopes, name);
    lemma_scope_of(scopes, other);
    let d = scope_of(scopes, name);
    let s = scopes[d];
    lemma_slot_of(s, name);
    let p = slot_of(s, name);
    let t = rebind(scopes, name, v);
    let u = s.update(p, (name, v));
    lemma_slot_names(s, u, other);
    assert forall|e: int| 0 <= e < scopes.len() implies (slot_of(#[trigger] scopes[e], other) >= 0)
        == (slot_of(t[e], other) >= 0) by {
        if e == d {
            assert(t[e] == u);
        }
    }
    lemma_scope_binds(scopes, t, other);
    let g = scope_of(scopes, other);
    if g == d {
        let q = slot_of(s, other);
        lemma_slot_of(s, other);
        assert(u[q] == s[q]);
    }
}

/// A scope pushed and popped leaves every read as it was: what a block
/// declares dies with the block.
pub proof fn law_block_scope(scopes: Seq<ScopeView>, s: ScopeView, name: Seq<char>)
    ensures
        lookup(scopes.push(s).drop_last(), name) == lookup(scopes, name),
{
    assert(scopes.push(s).drop_last() =~= scopes);
}

/// Negation is its own inverse, and flips the sign only.
pub proof fn law_negation(n: u64)
    ensures
        (n ^ SIGN_BIT) ^ SIGN_BIT == n,
        is_nan_bits(n ^ SIGN_BIT) == is_nan_bits(n),
        is_zero_bits(n ^ SIGN_BIT) == is_zero_bits(n),
{
    assert((n ^ 0x8000_0000_0000_0000u64) ^ 0x8000_0000_0000_0000u64 == n) by (bit_vector);
    assert(((n ^ 0x8000_0000_0000_0000u64) & 0x7ff0_0000_0000_0000u64) == (n
        & 0x7ff0_0000_0000_0000u64)) by (bit_vector);
    assert(((n ^ 0x8000_0000_0000_0000u64) & 0x000f_ffff_ffff_ffffu64) == (n
        & 0x000f_ffff_ffff_ffffu64)) by (bit_vector);
    assert(((n ^ 0x8000_0000_0000_0000u64) & 0x7fff_ffff_ffff_ffffu64) == (n
        & 0x7fff_ffff_ffff_ffffu64)) by (bit_vector);
}

/// Number equality is symmetric; a NaN equals nothing, itself included;
/// `0` equals `-0`.
pub proof fn law_number_equality(a: u64, b: u64)
    ensures
        num_eq(a, b) == num_eq(b, a),
        is_nan_bits(a) ==> !num_eq(a, b),
        !is_nan_bits(a) ==> num_eq(a, a),
        num_eq(0, SIGN_BIT),
{
    assert((0u64 & 0x7ff0_0000_0000_0000u64) != 0x7ff0_0000_0000_0000u64) by (bit_vector);
    assert((0x8000_0000_0000_0000u64 & 0x7ff0_0000_0000_0000u64) != 0x7ff0_0000_0000_0000u64)
        by (bit_vector);
    assert((0u64 & 0x7fff_ffff_ffff_ffffu64) == 0) by (bit_vector);
    assert((0x8000_0000_0000_0000u64 & 0x7fff_ffff_ffff_ffffu64) == 0) by (bit_vector);
}

/// After an index write, the element written reads back as the value
/// stored, and every other element reads as before: arrays keep their
/// length, maps gain at most the one key.
pub proof fn law_index_write(before: Value, after: Value, w: Value)
    requires
        written(Some(before), after, w),
        before matches Value::Dict(m) ==> distinct_keys(m@),
    ensures
        before matches Value::Array(xs) ==> after matches Value::Array(ys) && ys@.len() == xs@.len()
            && exists|i: int|
            0 <= i < xs@.len() && ys@[i] == w && forall|j: int|
                0 <= j < xs@.len() && j != i ==> ys@[j] == xs@[j],
        before matches Value::Dict(m) ==> after matches Value::Dict(n) && exists|k: KeyView|
            valid_key(k) && map_get(n@, k) == Some(w) && forall|j: KeyView|
                valid_key(j) && !key_eq(j, k) ==> map_get(n@, j) == map_get(m@, j),
{
    match before {
        Value::Array(xs) => {
            let i = choose|i: int| 0 <= i < xs@.len() && after->Array_0@ == #[trigger] xs@.update(i, w);
            assert(after->Array_0@[i] == w);
        },
        Value::Dict(m) => {
            let k = choose|k: KeyView| valid_key(k) && after->Dict_0@ == #[trigger] map_insert(m@, k, w);
            law_get_after_insert(m@, k, w);
            assert forall|j: KeyView| valid_key(j) && !key_eq(j, k) implies map_get(after->Dict_0@, j)
                == map_get(m@, j) by {
                if key_eq(k, j) {
                    lemma_key_eq_equivalence(k, j, k);
                }
                law_get_after_insert_other(m@, k, j, w);
            }
        },
        _ => {},
    }
}

/// Equality is strict: values of different types are never equal.
pub proof fn law_equality_is_strict(a: Value, b: Value)
    requires
        crate::value::type_label_of(a) != crate::value::type_label_of(b),
    ensures
        !crate::value::value_eq(a, b),
{
}

} // verus!
