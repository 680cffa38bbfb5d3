//! Laws of the dynamic object, stated over its contents and proved from the
//! contracts of its operations.
//!
//! The contents of an object are a map from keys to erased values. A store of
//! `v` under `key` turns the contents `m` into `m.insert(key, erase(v))`; what a
//! typed read may return is given by `typed_read`; what a read-or-store does is
//! given by `handed_out` and `withheld`.
use crate::erased::{distinct_types, erase, holds_type, is_value, Erased};
use crate::key_order::{key_less, lemma_key_less_irreflexive, lemma_key_less_transitive};
use crate::object::{handed_out, inserted_if_absent, is_key_list, typed_read, withheld};
use vstd::prelude::*;

verus! {

/// A read of a key as the type of the value that was last stored under it
/// yields that value.
pub proof fn law_store_then_read<T: 'static>(
    m: Map<Seq<char>, Erased>,
    key: Seq<char>,
    v: T,
    r: Option<&T>,
)
    requires
        typed_read(m.insert(key, erase(v)), key, r),
    ensures
        r == Some(&v),
{
    let after = m.insert(key, erase(v));
    assert(after[key] == erase(v));
    match r {
        Some(w) => {
            assert(is_value(after[key], *w));
        },
        None => {
            assert(holds_type::<T>(after[key]));
        },
    }
}

/// The contents and the key determine what a typed read yields.
pub proof fn law_read_determined<T: 'static>(
    m: Map<Seq<char>, Erased>,
    key: Seq<char>,
    r1: Option<&T>,
    r2: Option<&T>,
)
    requires
        typed_read(m, key, r1),
        typed_read(m, key, r2),
    ensures
        r1 == r2,
{
    match (r1, r2) {
        (Some(v), Some(w)) => {
            assert(is_value(m[key], *v));
            assert(erase(*w) == m[key]);
        },
        (Some(v), None) => {
            assert(erase(*v) == m[key]);
        },
        (None, Some(w)) => {
            assert(erase(*w) == m[key]);
        },
        (None, None) => {},
    }
}

/// A read of a key as another type than that of the value stored under it
/// yields nothing.
pub proof fn law_read_as_other_type<T: 'static, U: 'static>(
    m: Map<Seq<char>, Erased>,
    key: Seq<char>,
    v: T,
    r: Option<&U>,
)
    requires
        m.contains_key(key),
        m[key] == erase(v),
        distinct_types::<T, U>(),
        typed_read(m, key, r),
    ensures
        r is None,
{
    match r {
        Some(w) => {
            assert(erase(*w) == m[key]);
            assert(erase(v) != erase(*w));
        },
        None => {},
    }
}

/// A read of any key as any type yields nothing on an object without entries.
pub proof fn law_read_of_empty<T: 'static>(key: Seq<char>, r: Option<&T>)
    requires
        typed_read(Map::<Seq<char>, Erased>::empty(), key, r),
    ensures
        r is None,
{
}

/// Two stores under one key leave what the second alone would leave: one entry
/// under the key, of the type of the second value, and the other entries as
/// they were.
pub proof fn law_replacement<T: 'static, U: 'static>(
    m: Map<Seq<char>, Erased>,
    key: Seq<char>,
    v: T,
    u: U,
)
    ensures
        m.insert(key, erase(v)).insert(key, erase(u)) == m.insert(key, erase(u)),
        m.insert(key, erase(v)).insert(key, erase(u)).dom() == m.dom().insert(key),
        m.insert(key, erase(v)).insert(key, erase(u))[key] == erase(u),
        holds_type::<U>(m.insert(key, erase(v)).insert(key, erase(u))[key]),
{
    let twice = m.insert(key, erase(v)).insert(key, erase(u));
    assert(twice =~= m.insert(key, erase(u)));
    assert(twice.dom() =~= m.dom().insert(key));
    assert(erase(u) == twice[key]);
}

/// A read-or-store has one outcome: where the contents allow it to hand out a
/// reference they do not allow it to hand out nothing, and what the reference
/// points to at first is determined.
pub proof fn law_read_or_store_determined<T: 'static>(
    before: Map<Seq<char>, Erased>,
    key: Seq<char>,
    value: T,
    now: T,
    end: T,
    after: Map<Seq<char>, Erased>,
    now2: T,
    end2: T,
    after2: Map<Seq<char>, Erased>,
)
    requires
        handed_out(before, key, value, now, end, after),
    ensures
        !withheld::<T>(before, key, after2),
        handed_out(before, key, value, now2, end2, after2) ==> now2 == now,
{
    let stored = inserted_if_absent(before, key, value);
    assert(erase(now) == stored[key]);
    if handed_out(before, key, value, now2, end2, after2) {
        assert(erase(now2) == stored[key]);
    }
}

/// A read-or-store under an absent key hands out a reference.
pub proof fn law_read_or_store_absent_hands_out<T: 'static>(
    before: Map<Seq<char>, Erased>,
    key: Seq<char>,
    after: Map<Seq<char>, Erased>,
)
    requires
        !before.contains_key(key),
    ensures
        !withheld::<T>(before, key, after),
{
}

/// A read-or-store under an absent key stores the given value and hands it
/// out; a later read of the key as the same type yields what the caller left
/// there.
pub proof fn law_read_or_store_absent<T: 'static>(
    before: Map<Seq<char>, Erased>,
    key: Seq<char>,
    value: T,
    now: T,
    end: T,
    after: Map<Seq<char>, Erased>,
    r: Option<&T>,
)
    requires
        !before.contains_key(key),
        handed_out(before, key, value, now, end, after),
        typed_read(after, key, r),
    ensures
        now == value,
        after == before.insert(key, erase(end)),
        r == Some(&end),
{
    let stored = inserted_if_absent(before, key, value);
    assert(stored[key] == erase(value));
    assert(erase(value) == stored[key]);
    assert(after =~= before.insert(key, erase(end)));
    law_store_then_read(before, key, end, r);
}

/// A read-or-store as `T` under a key that holds a value of another type hands
/// out nothing.
pub proof fn law_read_or_store_mismatch_withholds<T: 'static, U: 'static>(
    before: Map<Seq<char>, Erased>,
    key: Seq<char>,
    u: U,
    value: T,
    now: T,
    end: T,
    after: Map<Seq<char>, Erased>,
)
    requires
        before.contains_key(key),
        before[key] == erase(u),
        distinct_types::<U, T>(),
    ensures
        !handed_out(before, key, value, now, end, after),
{
    if handed_out(before, key, value, now, end, after) {
        assert(erase(now) == before[key]);
        assert(erase(u) != erase(now));
    }
}

/// A read-or-store that hands out nothing leaves the entry under the key as it
/// was: a read of the key as the type of its value still yields that value.
pub proof fn law_read_or_store_mismatch<T: 'static, U: 'static>(
    before: Map<Seq<char>, Erased>,
    key: Seq<char>,
    u: U,
    after: Map<Seq<char>, Erased>,
    r: Option<&U>,
)
    requires
        before.contains_key(key),
        before[key] == erase(u),
        withheld::<T>(before, key, after),
        typed_read(after, key, r),
    ensures
        after == before,
        r == Some(&u),
{
    match r {
        Some(w) => {
            assert(is_value(after[key], *w));
            assert(erase(u) == after[key]);
        },
        None => {
            assert(erase(u) == after[key]);
            assert(holds_type::<U>(after[key]));
        },
    }
}

/// A store changes no other key.
pub proof fn law_store_keeps_other_keys<T: 'static>(
    m: Map<Seq<char>, Erased>,
    key: Seq<char>,
    v: T,
    other: Seq<char>,
)
    requires
        other != key,
    ensures
        m.insert(key, erase(v)).contains_key(other) == m.contains_key(other),
        m.contains_key(other) ==> m.insert(key, erase(v))[other] == m[other],
{
}

/// The contents determine the list of their keys: two lists of the keys of
/// the same contents have the same length and hold the same keys index by
/// index.
pub proof fn law_key_list_determined(a: Seq<String>, b: Seq<String>, m: Map<Seq<char>, Erased>)
    requires
        is_key_list(a, m),
        is_key_list(b, m),
    ensures
        a.len() == b.len(),
        forall|i: int| 0 <= i < a.len() ==> #[trigger] a[i]@ == b[i]@,
{
    if a.len() <= b.len() {
        lemma_key_list_prefix(a, b, m, a.len() as int);
        lemma_key_list_length(a, b, m);
    } else {
        lemma_key_list_prefix(b, a, m, b.len() as int);
        lemma_key_list_length(b, a, m);
    }
}

/// Two lists of the keys of the same contents agree on the first `n` places.
proof fn lemma_key_list_prefix(a: Seq<String>, b: Seq<String>, m: Map<Seq<char>, Erased>, n: int)
    requires
        is_key_list(a, m),
        is_key_list(b, m),
        0 <= n <= a.len(),
        n <= b.len(),
    ensures
        forall|i: int| 0 <= i < n ==> #[trigger] a[i]@ == b[i]@,
    decreases n,
{
    if n > 0 {
        lemma_key_list_prefix(a, b, m, n - 1);
        let i = n - 1;
        assert(m.contains_key(a[i]@));
        assert(m.contains_key(b[i]@));
        let j = choose|j: int| 0 <= j < b.len() && #[trigger] b[j]@ == a[i]@;
        let k = choose|k: int| 0 <= k < a.len() && #[trigger] a[k]@ == b[i]@;
        lemma_key_less_irreflexive(a[i]@);
        lemma_key_less_irreflexive(b[i]@);
        if j < i {
            assert(a[j]@ == b[j]@);
            assert(key_less(a[j]@, a[i]@));
        } else if k < i {
            assert(a[k]@ == b[k]@);
            assert(key_less(b[k]@, b[i]@));
        } else if j > i && k > i {
            assert(key_less(b[i]@, b[j]@));
            assert(key_less(a[i]@, a[k]@));
            lemma_key_less_transitive(a[i]@, a[k]@, b[j]@);
        } else if j > i {
            assert(key_less(b[i]@, b[j]@));
        } else if k > i {
            assert(key_less(a[i]@, a[k]@));
        }
    }
}

/// Of two lists of the keys of the same contents, one that agrees with the
/// other as far as it goes is as long as the other.
proof fn lemma_key_list_length(a: Seq<String>, b: Seq<String>, m: Map<Seq<char>, Erased>)
    requires
        is_key_list(a, m),
        is_key_list(b, m),
        a.len() <= b.len(),
        forall|i: int| 0 <= i < a.len() ==> #[trigger] a[i]@ == b[i]@,
    ensures
        a.len() == b.len(),
{
    if a.len() < b.len() {
        let n = a.len() as int;
        assert(m.contains_key(b[n]@));
        let k = choose|k: int| 0 <= k < a.len() && #[trigger] a[k]@ == b[n]@;
        assert(a[k]@ == b[k]@);
        assert(key_less(b[k]@, b[n]@));
        lemma_key_less_irreflexive(b[n]@);
    }
}

} // verus!
