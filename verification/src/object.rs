//! The dynamic object: a map from string keys to type-erased cells.
use crate::any_type::AnyType;
use crate::erased::{erase, holds_type, is_value, Erased};
use crate::key_order::{
    compare_keys, key_less, lemma_key_less_irreflexive, lemma_key_less_transitive, KeyOrder,
};
use core::cmp::Ordering;
use vstd::prelude::*;
use vstd::std_specs::cmp::PartialOrdSpecImpl;

verus! {

/// A map from string keys to values of any type.
///
/// The keys are kept in increasing order, each once; `cells` holds under each
/// index the value of the key at that index.
#[derive(Debug, PartialEq)]
pub struct Object {
    keys: Vec<String>,
    cells: Vec<Box<dyn AnyType>>,
}

/// The key at index `i`.
spec fn key_at(keys: Seq<String>, i: int) -> Seq<char> {
    keys[i]@
}

/// The erased values of the cells, index by index.
spec fn values_of(cells: Seq<Box<dyn AnyType>>) -> Seq<Erased> {
    Seq::new(cells.len(), |i: int| (*cells[i]).erased())
}

/// The keys strictly increase.
spec fn sorted(keys: Seq<String>) -> bool {
    forall|i: int, j: int|
        0 <= i < j < keys.len() ==> key_less(#[trigger] key_at(keys, i), #[trigger] key_at(keys, j))
}

/// `k` is one of the keys.
spec fn has_key(keys: Seq<String>, k: Seq<char>) -> bool {
    exists|i: int| 0 <= i < keys.len() && #[trigger] key_at(keys, i) == k
}

/// An index at which `k` stands among the keys.
spec fn index_of(keys: Seq<String>, k: Seq<char>) -> int {
    choose|i: int| 0 <= i < keys.len() && #[trigger] key_at(keys, i) == k
}

/// The map that keys and values stand for.
spec fn entries_view(keys: Seq<String>, values: Seq<Erased>) -> Map<Seq<char>, Erased> {
    Map::new(|k: Seq<char>| has_key(keys, k), |k: Seq<char>| values[index_of(keys, k)])
}

/// The keys of the map are the keys; a key's index is one at which it stands.
proof fn lemma_view_keys(keys: Seq<String>, values: Seq<Erased>, k: Seq<char>)
    ensures
        entries_view(keys, values).contains_key(k) <==> has_key(keys, k),
        has_key(keys, k) ==> 0 <= index_of(keys, k) < keys.len() && key_at(keys, index_of(keys, k))
            == k,
{
}

/// In sorted keys no key occurs twice.
proof fn lemma_sorted_unique(keys: Seq<String>, i: int, j: int)
    requires
        sorted(keys),
        0 <= i < keys.len(),
        0 <= j < keys.len(),
        key_at(keys, i) == key_at(keys, j),
    ensures
        i == j,
{
    lemma_key_less_irreflexive(key_at(keys, i));
    if i < j {
        assert(key_less(key_at(keys, i), key_at(keys, j)));
    } else if j < i {
        assert(key_less(key_at(keys, j), key_at(keys, i)));
    }
}

/// The map holds under each key the value at the key's index.
proof fn lemma_view_at(keys: Seq<String>, values: Seq<Erased>, i: int)
    requires
        sorted(keys),
        0 <= i < keys.len(),
    ensures
        has_key(keys, key_at(keys, i)),
        index_of(keys, key_at(keys, i)) == i,
        entries_view(keys, values).contains_key(key_at(keys, i)),
        entries_view(keys, values)[key_at(keys, i)] == values[i],
{
    let k = key_at(keys, i);
    assert(has_key(keys, k));
    lemma_sorted_unique(keys, i, index_of(keys, k));
}

/// A key that stands strictly between the keys before `p` and those from `p`
/// on is none of them.
proof fn lemma_absent(keys: Seq<String>, values: Seq<Erased>, k: Seq<char>, p: int)
    requires
        0 <= p <= keys.len(),
        forall|i: int| 0 <= i < p ==> key_less(#[trigger] key_at(keys, i), k),
        forall|i: int| p <= i < keys.len() ==> key_less(k, #[trigger] key_at(keys, i)),
    ensures
        !has_key(keys, k),
        !entries_view(keys, values).contains_key(k),
{
    lemma_key_less_irreflexive(k);
}

/// Putting a new key at its place keeps the keys sorted.
proof fn lemma_insert_sorted(keys: Seq<String>, p: int, key: String)
    requires
        sorted(keys),
        0 <= p <= keys.len(),
        forall|i: int| 0 <= i < p ==> key_less(#[trigger] key_at(keys, i), key@),
        forall|i: int| p <= i < keys.len() ==> key_less(key@, #[trigger] key_at(keys, i)),
    ensures
        sorted(keys.insert(p, key)),
{
    let t = keys.insert(p, key);
    assert forall|i: int, j: int| 0 <= i < j < t.len() implies key_less(
        #[trigger] key_at(t, i),
        #[trigger] key_at(t, j),
    ) by {
        let i0 = if i < p { i } else { i - 1 };
        let j0 = if j < p { j } else { j - 1 };
        if i != p {
            assert(key_at(t, i) == key_at(keys, i0));
        }
        if j != p {
            assert(key_at(t, j) == key_at(keys, j0));
        }
        if i < p && p < j {
            lemma_key_less_transitive(key_at(keys, i0), key@, key_at(keys, j0));
        }
    }
}

/// Putting a new key with its value at the key's place adds the pair to the
/// map.
proof fn lemma_insert_view(keys: Seq<String>, values: Seq<Erased>, p: int, key: String, value: Erased)
    requires
        sorted(keys),
        keys.len() == values.len(),
        0 <= p <= keys.len(),
        forall|i: int| 0 <= i < p ==> key_less(#[trigger] key_at(keys, i), key@),
        forall|i: int| p <= i < keys.len() ==> key_less(key@, #[trigger] key_at(keys, i)),
    ensures
        entries_view(keys.insert(p, key), values.insert(p, value)) == entries_view(
            keys,
            values,
        ).insert(key@, value),
{
    let keys2 = keys.insert(p, key);
    let values2 = values.insert(p, value);
    let m = entries_view(keys, values).insert(key@, value);
    let m2 = entries_view(keys2, values2);
    lemma_insert_sorted(keys, p, key);
    assert forall|k: Seq<char>| #[trigger] m2.contains_key(k) implies m.contains_key(k) by {
        lemma_view_keys(keys2, values2, k);
        lemma_view_keys(keys, values, k);
        let i = index_of(keys2, k);
        if i < p {
            assert(key_at(keys, i) == k);
        } else if i > p {
            assert(key_at(keys, i - 1) == k);
        }
    }
    assert forall|k: Seq<char>| #[trigger] m.contains_key(k) implies m2.contains_key(k) && m2[k]
        == m[k] by {
        if k == key@ {
            assert(key_at(keys2, p) == k);
            lemma_view_at(keys2, values2, p);
        } else {
            lemma_view_keys(keys, values, k);
            let i = index_of(keys, k);
            lemma_view_at(keys, values, i);
            let i2 = if i < p { i } else { i + 1 };
            assert(key_at(keys2, i2) == k);
            lemma_view_at(keys2, values2, i2);
        }
    }
    assert(m2 =~= m);
}

/// Changing the value at an index puts the new value under that index's key.
proof fn lemma_update_view(keys: Seq<String>, values: Seq<Erased>, i: int, value: Erased)
    requires
        sorted(keys),
        keys.len() == values.len(),
        0 <= i < keys.len(),
    ensures
        entries_view(keys, values.update(i, value)) == entries_view(keys, values).insert(
            key_at(keys, i),
            value,
        ),
{
    let values2 = values.update(i, value);
    let m = entries_view(keys, values).insert(key_at(keys, i), value);
    let m2 = entries_view(keys, values2);
    lemma_view_at(keys, values, i);
    assert forall|k: Seq<char>| #[trigger] m2.contains_key(k) implies m.contains_key(k) by {
        lemma_view_keys(keys, values2, k);
        lemma_view_keys(keys, values, k);
    }
    assert forall|k: Seq<char>| #[trigger] m.contains_key(k) implies m2.contains_key(k) && m2[k]
        == m[k] by {
        if k == key_at(keys, i) {
            lemma_view_at(keys, values2, i);
        } else {
            lemma_view_keys(keys, values, k);
            let j = index_of(keys, k);
            lemma_view_at(keys, values, j);
            lemma_view_at(keys, values2, j);
        }
    }
    assert(m2 =~= m);
}

/// Taking the key and the value at an index out keeps the keys sorted and
/// takes the key out of the map.
proof fn lemma_remove_view(keys: Seq<String>, values: Seq<Erased>, i: int)
    requires
        sorted(keys),
        keys.len() == values.len(),
        0 <= i < keys.len(),
    ensures
        sorted(keys.remove(i)),
        entries_view(keys.remove(i), values.remove(i)) == entries_view(keys, values).remove(
            key_at(keys, i),
        ),
{
    let keys2 = keys.remove(i);
    let values2 = values.remove(i);
    let m = entries_view(keys, values).remove(key_at(keys, i));
    let m2 = entries_view(keys2, values2);
    assert forall|a: int, b: int| 0 <= a < b < keys2.len() implies key_less(
        #[trigger] key_at(keys2, a),
        #[trigger] key_at(keys2, b),
    ) by {
        let a0 = if a < i { a } else { a + 1 };
        let b0 = if b < i { b } else { b + 1 };
        assert(key_at(keys2, a) == key_at(keys, a0));
        assert(key_at(keys2, b) == key_at(keys, b0));
    }
    assert forall|k: Seq<char>| #[trigger] m2.contains_key(k) implies m.contains_key(k) by {
        lemma_view_keys(keys2, values2, k);
        lemma_view_keys(keys, values, k);
        let j = index_of(keys2, k);
        let j0 = if j < i { j } else { j + 1 };
        assert(key_at(keys, j0) == k);
        if k == key_at(keys, i) {
            lemma_sorted_unique(keys, i, j0);
        }
    }
    assert forall|k: Seq<char>| #[trigger] m.contains_key(k) implies m2.contains_key(k) && m2[k]
        == m[k] by {
        lemma_view_keys(keys, values, k);
        let j = index_of(keys, k);
        lemma_view_at(keys, values, j);
        let j1 = if j < i { j } else { j - 1 };
        assert(key_at(keys2, j1) == k);
        lemma_view_at(keys2, values2, j1);
    }
    assert(m2 =~= m);
}

/// The map of sorted keys has as many entries as there are keys.
proof fn lemma_view_len(keys: Seq<String>, values: Seq<Erased>)
    requires
        sorted(keys),
        keys.len() == values.len(),
    ensures
        entries_view(keys, values).dom().finite(),
        entries_view(keys, values).len() == keys.len(),
    decreases keys.len(),
{
    if keys.len() == 0 {
        assert(entries_view(keys, values) =~= Map::<Seq<char>, Erased>::empty());
    } else {
        let n = keys.len() - 1;
        let keys1 = keys.drop_last();
        let values1 = values.drop_last();
        assert forall|i: int, j: int| 0 <= i < j < keys1.len() implies key_less(
            #[trigger] key_at(keys1, i),
            #[trigger] key_at(keys1, j),
        ) by {
            assert(key_at(keys1, i) == key_at(keys, i));
            assert(key_at(keys1, j) == key_at(keys, j));
        }
        lemma_view_len(keys1, values1);
        assert forall|i: int| 0 <= i < n implies key_less(
            #[trigger] key_at(keys1, i),
            keys[n]@,
        ) by {
            assert(key_at(keys1, i) == key_at(keys, i));
            assert(key_at(keys, n) == keys[n]@);
        }
        lemma_absent(keys1, values1, keys[n]@, n);
        lemma_insert_view(keys1, values1, n, keys[n], values[n]);
        assert(keys1.insert(n, keys[n]) =~= keys);
        assert(values1.insert(n, values[n]) =~= values);
    }
}

/// Changing the cell at an index puts the new value under that index's key.
proof fn lemma_cell_changed(
    keys: Seq<String>,
    cells: Seq<Box<dyn AnyType>>,
    cells2: Seq<Box<dyn AnyType>>,
    i: int,
)
    requires
        sorted(keys),
        keys.len() == cells.len(),
        0 <= i < keys.len(),
        cells2.len() == cells.len(),
        forall|j: int| 0 <= j < cells.len() && j != i ==> cells2[j] == cells[j],
    ensures
        entries_view(keys, values_of(cells2)) == entries_view(keys, values_of(cells)).insert(
            key_at(keys, i),
            (*cells2[i]).erased(),
        ),
{
    lemma_update_view(keys, values_of(cells), i, (*cells2[i]).erased());
    assert(values_of(cells2) =~= values_of(cells).update(i, (*cells2[i]).erased()));
}

/// Keys that agree index by index give maps with the same keys.
proof fn lemma_same_keys(
    keys: Seq<String>,
    values: Seq<Erased>,
    keys2: Seq<String>,
    values2: Seq<Erased>,
)
    requires
        keys.len() == keys2.len(),
        forall|j: int| 0 <= j < keys.len() ==> key_at(keys, j) == key_at(keys2, j),
    ensures
        entries_view(keys, values).dom() == entries_view(keys2, values2).dom(),
{
    assert forall|k: Seq<char>|
        entries_view(keys, values).dom().contains(k) == entries_view(keys2, values2).dom().contains(
            k,
        ) by {
        lemma_view_keys(keys, values, k);
        lemma_view_keys(keys2, values2, k);
        if has_key(keys, k) {
            assert(key_at(keys2, index_of(keys, k)) == k);
        }
        if has_key(keys2, k) {
            assert(key_at(keys, index_of(keys2, k)) == k);
        }
    }
    assert(entries_view(keys, values).dom() =~= entries_view(keys2, values2).dom());
}

/// Puts `element` at index `i` of `v`.
///
/// The element comes first among the parameters, so that a boxed trait object
/// is taken as it is and not coerced to its own type once more.
fn insert_at<T>(element: T, v: &mut Vec<T>, i: usize)
    requires
        i <= old(v).len(),
    ensures
        final(v)@ == old(v)@.insert(i as int, element),
{
    v.insert(i, element);
}

/// What a read of `key` as a `T` yields on the contents `m`: the value stored
/// under the key where there is one and it is of type `T`, nothing where the
/// key is absent or holds another type.
pub open spec fn typed_read<T: 'static>(
    m: Map<Seq<char>, Erased>,
    key: Seq<char>,
    r: Option<&T>,
) -> bool {
    match r {
        Some(v) => m.contains_key(key) && is_value(m[key], *v),
        None => !m.contains_key(key) || !holds_type::<T>(m[key]),
    }
}

/// The contents after `value` has been stored under `key` unless the key was
/// present.
pub open spec fn inserted_if_absent<T: 'static>(
    m: Map<Seq<char>, Erased>,
    key: Seq<char>,
    value: T,
) -> Map<Seq<char>, Erased> {
    if m.contains_key(key) {
        m
    } else {
        m.insert(key, erase(value))
    }
}

/// `keys` lists the keys of the contents `m`, each once, in increasing order.
pub open spec fn is_key_list(keys: Seq<String>, m: Map<Seq<char>, Erased>) -> bool {
    &&& forall|i: int, j: int|
        0 <= i < j < keys.len() ==> key_less(#[trigger] keys[i]@, #[trigger] keys[j]@)
    &&& forall|k: Seq<char>|
        m.contains_key(k) <==> exists|i: int| 0 <= i < keys.len() && #[trigger] keys[i]@ == k
}

/// What holds when a read-or-store of `value` under `key` hands out a
/// reference: `before` are the contents at the call, `now` is what the
/// reference points to at first, `end` what the caller leaves there, `after`
/// the contents once the caller is done with it.
pub open spec fn handed_out<T: 'static>(
    before: Map<Seq<char>, Erased>,
    key: Seq<char>,
    value: T,
    now: T,
    end: T,
    after: Map<Seq<char>, Erased>,
) -> bool {
    &&& is_value(inserted_if_absent(before, key, value)[key], now)
    &&& after == inserted_if_absent(before, key, value).insert(key, erase(end))
}

/// What holds when a read-or-store under `key` hands out nothing: the key was
/// present with a value of another type than `T`, and the contents stay.
pub open spec fn withheld<T: 'static>(
    before: Map<Seq<char>, Erased>,
    key: Seq<char>,
    after: Map<Seq<char>, Erased>,
) -> bool {
    &&& before.contains_key(key)
    &&& !holds_type::<T>(before[key])
    &&& after == before
}

impl View for Object {
    type V = Map<Seq<char>, Erased>;

    /// The contents: each key with the erased form of the value stored under it.
    closed spec fn view(&self) -> Map<Seq<char>, Erased> {
        entries_view(self.keys@, values_of(self.cells@))
    }
}

impl Object {
    /// The keys strictly increase, and each has its cell.
    #[verifier::type_invariant]
    spec fn well_formed(self) -> bool {
        &&& sorted(self.keys@)
        &&& self.keys.len() == self.cells.len()
    }

    /// An object without entries.
    pub fn new() -> (r: Self)
        ensures
            r@ == Map::<Seq<char>, Erased>::empty(),
    {
        let r = Object { keys: Vec::new(), cells: Vec::new() };
        assert(r@ =~= Map::<Seq<char>, Erased>::empty());
        r
    }

    /// Where `key` stands among the keys: `Ok` with its index where it is
    /// present, `Err` with the index at which it would be inserted where not.
    fn find(&self, key: &str) -> (r: Result<usize, usize>)
        ensures
            match r {
                Ok(i) => i < self.keys.len() && key_at(self.keys@, i as int) == key@,
                Err(p) => {
                    &&& p <= self.keys.len()
                    &&& forall|i: int| 0 <= i < p ==> key_less(#[trigger] key_at(self.keys@, i), key@)
                    &&& forall|i: int|
                        p <= i < self.keys.len() ==> key_less(key@, #[trigger] key_at(self.keys@, i))
                },
            },
    {
        proof {
            use_type_invariant(self);
        }
        let mut lo: usize = 0;
        let mut hi: usize = self.keys.len();
        while lo < hi
            invariant
                lo <= hi <= self.keys.len(),
                sorted(self.keys@),
                forall|i: int| 0 <= i < lo ==> key_less(#[trigger] key_at(self.keys@, i), key@),
                forall|i: int|
                    hi <= i < self.keys.len() ==> key_less(key@, #[trigger] key_at(self.keys@, i)),
            decreases hi - lo,
        {
            let mid = lo + (hi - lo) / 2;
            match compare_keys(self.keys[mid].as_str(), key) {
                KeyOrder::Same => {
                    return Ok(mid);
                },
                KeyOrder::Before => {
                    proof {
                        assert forall|i: int| 0 <= i < mid + 1 implies key_less(
                            #[trigger] key_at(self.keys@, i),
                            key@,
                        ) by {
                            if i < mid {
                                assert(key_less(key_at(self.keys@, i), key_at(self.keys@, mid as int)));
                                lemma_key_less_transitive(
                                    key_at(self.keys@, i),
                                    key_at(self.keys@, mid as int),
                                    key@,
                                );
                            }
                        }
                    }
                    lo = mid + 1;
                },
                KeyOrder::After => {
                    proof {
                        assert forall|i: int| mid <= i < self.keys.len() implies key_less(
                            key@,
                            #[trigger] key_at(self.keys@, i),
                        ) by {
                            if mid < i {
                                assert(key_less(key_at(self.keys@, mid as int), key_at(self.keys@, i)));
                                lemma_key_less_transitive(
                                    key@,
                                    key_at(self.keys@, mid as int),
                                    key_at(self.keys@, i),
                                );
                            }
                        }
                    }
                    hi = mid;
                },
            }
        }
        Err(lo)
    }

    /// Puts the absent `key` with `cell` at index `p`, the key's place.
    fn place(&mut self, p: usize, key: String, cell: Box<dyn AnyType>)
        requires
            p <= old(self).keys.len(),
            forall|i: int| 0 <= i < p ==> key_less(#[trigger] key_at(old(self).keys@, i), key@),
            forall|i: int|
                p <= i < old(self).keys.len() ==> key_less(
                    key@,
                    #[trigger] key_at(old(self).keys@, i),
                ),
        ensures
            !old(self)@.contains_key(key@),
            final(self)@ == old(self)@.insert(key@, (*cell).erased()),
            final(self).keys@ == old(self).keys@.insert(p as int, key),
            final(self).cells.len() == old(self).cells.len() + 1,
            (*final(self).cells[p as int]).erased() == (*cell).erased(),
    {
        proof {
            use_type_invariant(&*self);
        }
        let ghost values = values_of(self.cells@);
        let ghost value = (*cell).erased();
        proof {
            lemma_absent(self.keys@, values, key@, p as int);
            lemma_insert_sorted(self.keys@, p as int, key);
            lemma_insert_view(self.keys@, values, p as int, key, value);
        }
        // Both vectors change: they are taken out and put back as one value.
        let mut taken = Object::new();
        core::mem::swap(self, &mut taken);
        let Object { mut keys, mut cells } = taken;
        insert_at(key, &mut keys, p);
        insert_at(cell, &mut cells, p);
        assert(values_of(cells@) =~= values.insert(p as int, value));
        *self = Object { keys, cells };
    }

    /// Stores `cell` under `key` and returns the cell that was stored there
    /// before, if there was one.
    pub fn insert_cell(&mut self, key: String, cell: Box<dyn AnyType>) -> (r: Option<
        Box<dyn AnyType>,
    >)
        ensures
            final(self)@ == old(self)@.insert(key@, (*cell).erased()),
            match r {
                Some(before) => old(self)@.contains_key(key@) && (*before).erased() == old(
                    self,
                )@[key@],
                None => !old(self)@.contains_key(key@),
            },
    {
        proof {
            use_type_invariant(&*self);
        }
        let ghost values = values_of(self.cells@);
        match self.find(key.as_str()) {
            Ok(i) => {
                proof {
                    lemma_view_at(self.keys@, values, i as int);
                    lemma_update_view(self.keys@, values, i as int, (*cell).erased());
                }
                let ghost value = (*cell).erased();
                let mut cell = cell;
                core::mem::swap(&mut self.cells[i], &mut cell);
                assert(values_of(self.cells@) =~= values.update(i as int, value));
                Some(cell)
            },
            Err(p) => {
                self.place(p, key, cell);
                None
            },
        }
    }

    /// Stores `value` under `key` with its type erased. A value that was stored
    /// under the key before is dropped. The key is what `key` converts into.
    pub fn insert<K: Into<String>, V: AnyType>(&mut self, key: K, value: V)
        ensures
            exists|k: String| #[trigger]
                call_ensures(K::into, (key,), k) && final(self)@ == old(self)@.insert(
                    k@,
                    erase(value),
                ),
    {
        proof {
            value.erased_is_erase();
        }
        let k: String = key.into();
        self.insert_cell(k, Box::new(value));
    }

    /// The value stored under `key`, if there is one and it is of type `T`.
    pub fn get_as<T: 'static>(&self, key: &str) -> (r: Option<&T>)
        ensures
            typed_read(self@, key@, r),
    {
        match self.get(key) {
            Some(cell) => (**cell).downcast_ref::<T>(),
            None => None,
        }
    }

    /// Takes `key` out and returns the cell that was stored under it, if there
    /// was one.
    pub fn remove(&mut self, key: &str) -> (r: Option<Box<dyn AnyType>>)
        ensures
            final(self)@ == old(self)@.remove(key@),
            match r {
                Some(cell) => old(self)@.contains_key(key@) && (*cell).erased() == old(self)@[key@],
                None => !old(self)@.contains_key(key@),
            },
    {
        proof {
            use_type_invariant(&*self);
        }
        let ghost values = values_of(self.cells@);
        match self.find(key) {
            Ok(i) => {
                proof {
                    lemma_view_at(self.keys@, values, i as int);
                    lemma_remove_view(self.keys@, values, i as int);
                }
                // Both vectors change: they are taken out and put back as one value.
                let mut taken = Object::new();
                core::mem::swap(self, &mut taken);
                let Object { mut keys, mut cells } = taken;
                keys.remove(i);
                let cell = cells.remove(i);
                assert(values_of(cells@) =~= values.remove(i as int));
                *self = Object { keys, cells };
                Some(cell)
            },
            Err(p) => {
                proof {
                    lemma_absent(self.keys@, values, key@, p as int);
                    assert(self@.remove(key@) =~= self@);
                }
                None
            },
        }
    }

    /// The number of entries.
    pub fn len(&self) -> (r: usize)
        ensures
            r == self@.len(),
            self@.dom().finite(),
    {
        proof {
            use_type_invariant(self);
            lemma_view_len(self.keys@, values_of(self.cells@));
        }
        self.keys.len()
    }

    /// Whether there is no entry.
    pub fn is_empty(&self) -> (r: bool)
        ensures
            r == (self@.len() == 0),
            r == (self@ == Map::<Seq<char>, Erased>::empty()),
    {
        proof {
            use_type_invariant(self);
            lemma_view_len(self.keys@, values_of(self.cells@));
            if self@.len() == 0 {
                assert(self@ =~= Map::<Seq<char>, Erased>::empty());
            }
        }
        self.keys.len() == 0
    }

    /// Stores `value` under `key` unless the key is present, then hands out the
    /// value under the key if it is of type `T`.
    ///
    /// Where the key is present with a value of another type, the object stays
    /// as it is, `value` is dropped and nothing is handed out. What the caller
    /// writes through the reference is what the key then holds.
    pub fn get_or_insert_owned_as<T: AnyType>(&mut self, key: String, value: T) -> (r: Option<
        &mut T,
    >)
        ensures
            match r {
                Some(v) => handed_out(old(self)@, key@, value, *v, *final(v), final(self)@),
                None => withheld::<T>(old(self)@, key@, final(self)@),
            },
    {
        proof {
            use_type_invariant(&*self);
            value.erased_is_erase();
        }
        let i = match self.find(key.as_str()) {
            Ok(i) => {
                proof {
                    lemma_view_at(self.keys@, values_of(self.cells@), i as int);
                }
                i
            },
            Err(p) => {
                self.place(p, key, Box::new(value));
                proof {
                    use_type_invariant(&*self);
                    lemma_view_at(self.keys@, values_of(self.cells@), p as int);
                }
                p
            },
        };
        proof {
            use_type_invariant(&*self);
            let keys = self.keys@;
            let cells = self.cells@;
            assert forall|cells2: Seq<Box<dyn AnyType>>|
                cells2.len() == cells.len() && (forall|j: int|
                    0 <= j < cells.len() && j != i ==> cells2[j] == cells[j]) implies #[trigger] entries_view(
                keys,
                values_of(cells2),
            ) == entries_view(keys, values_of(cells)).insert(
                key_at(keys, i as int),
                (*cells2[i as int]).erased(),
            ) by {
                lemma_cell_changed(keys, cells, cells2, i as int);
            }
        }
        self.cells[i].downcast_mut::<T>()
    }

    /// As [`Object::get_or_insert_owned_as`], under the key that `key` converts
    /// into.
    pub fn get_or_insert_as<T: AnyType>(&mut self, key: impl Into<String>, value: T) -> (r: Option<
        &mut T,
    >)
        ensures
            exists|k: String| #[trigger]
                call_ensures(Into::<String>::into, (key,), k) && match r {
                    Some(v) => handed_out(old(self)@, k@, value, *v, *final(v), final(self)@),
                    None => withheld::<T>(old(self)@, k@, final(self)@),
                },
    {
        let k: String = key.into();
        self.get_or_insert_owned_as(k, value)
    }

    /// The keys in increasing order.
    pub fn keys(&self) -> (r: Vec<String>)
        ensures
            r.len() == self@.len(),
            is_key_list(r@, self@),
    {
        proof {
            use_type_invariant(self);
            lemma_view_len(self.keys@, values_of(self.cells@));
        }
        let mut r: Vec<String> = Vec::new();
        let n = self.keys.len();
        let mut i: usize = 0;
        while i < n
            invariant
                n == self.keys.len(),
                i <= n,
                r.len() == i,
                forall|j: int| 0 <= j < i ==> r[j] == self.keys[j],
            decreases n - i,
        {
            r.push(self.keys[i].clone());
            i = i + 1;
        }
        proof {
            assert(r@ =~= self.keys@);
            assert forall|a: int, b: int| 0 <= a < b < r.len() implies key_less(
                #[trigger] r[a]@,
                #[trigger] r[b]@,
            ) by {
                assert(key_less(key_at(self.keys@, a), key_at(self.keys@, b)));
            }
            assert forall|k: Seq<char>|
                self@.contains_key(k) <==> exists|i: int|
                    0 <= i < r.len() && #[trigger] r[i]@ == k by {
                lemma_view_keys(self.keys@, values_of(self.cells@), k);
                if has_key(self.keys@, k) {
                    let i = index_of(self.keys@, k);
                    assert(r[i]@ == k);
                }
                if exists|i: int| 0 <= i < r.len() && #[trigger] r[i]@ == k {
                    let i = choose|i: int| 0 <= i < r.len() && #[trigger] r[i]@ == k;
                    assert(key_at(self.keys@, i) == k);
                }
            }
        }
        r
    }

    /// Whether `key` is present.
    pub fn contains_key(&self, key: &str) -> (r: bool)
        ensures
            r == self@.contains_key(key@),
    {
        proof {
            use_type_invariant(self);
        }
        match self.find(key) {
            Ok(i) => {
                proof {
                    lemma_view_at(self.keys@, values_of(self.cells@), i as int);
                }
                true
            },
            Err(p) => {
                proof {
                    lemma_absent(self.keys@, values_of(self.cells@), key@, p as int);
                }
                false
            },
        }
    }

    /// The cell stored under `key`, if there is one.
    pub fn get(&self, key: &str) -> (r: Option<&Box<dyn AnyType>>)
        ensures
            match r {
                Some(cell) => self@.contains_key(key@) && (**cell).erased() == self@[key@],
                None => !self@.contains_key(key@),
            },
    {
        proof {
            use_type_invariant(self);
        }
        match self.find(key) {
            Ok(i) => {
                proof {
                    lemma_view_at(self.keys@, values_of(self.cells@), i as int);
                }
                Some(&self.cells[i])
            },
            Err(p) => {
                proof {
                    lemma_absent(self.keys@, values_of(self.cells@), key@, p as int);
                }
                None
            },
        }
    }
}

impl Default for Object {
    /// An object without entries.
    fn default() -> (r: Self)
        ensures
            r@ == Map::<Seq<char>, Erased>::empty(),
    {
        Object::new()
    }
}

impl PartialOrd for Object {
    /// Compares two objects entry by entry in the order of their keys: at the
    /// first place where they differ, by key and then by value; where one runs
    /// out, the shorter comes first.
    fn partial_cmp(&self, other: &Self) -> (r: Option<Ordering>)
        ensures
            r == Some(Ordering::Equal) ==> self@.dom() == other@.dom(),
    {
        proof {
            use_type_invariant(self);
            use_type_invariant(other);
        }
        let n = self.keys.len();
        let m = other.keys.len();
        let mut i: usize = 0;
        while i < n && i < m
            invariant
                n == self.keys.len(),
                n == self.cells.len(),
                m == other.keys.len(),
                m == other.cells.len(),
                i <= n,
                i <= m,
                forall|j: int| 0 <= j < i ==> key_at(self.keys@, j) == key_at(other.keys@, j),
            decreases n - i,
        {
            match compare_keys(self.keys[i].as_str(), other.keys[i].as_str()) {
                KeyOrder::Before => {
                    return Some(Ordering::Less);
                },
                KeyOrder::After => {
                    return Some(Ordering::Greater);
                },
                KeyOrder::Same => {},
            }
            match (*self.cells[i]).partial_cmp(&*other.cells[i]) {
                Some(Ordering::Equal) => {},
                unequal => {
                    return unequal;
                },
            }
            i = i + 1;
        }
        if n < m {
            Some(Ordering::Less)
        } else if m < n {
            Some(Ordering::Greater)
        } else {
            proof {
                lemma_same_keys(
                    self.keys@,
                    values_of(self.cells@),
                    other.keys@,
                    values_of(other.cells@),
                );
            }
            Some(Ordering::Equal)
        }
    }
}

impl PartialOrdSpecImpl for Object {
    /// The comparison of objects rests on those of the stored values, of which
    /// nothing is known in general: what it returns is stated at `partial_cmp`
    /// alone.
    open spec fn obeys_partial_cmp_spec() -> bool {
        false
    }

    /// Stands for no result: see `obeys_partial_cmp_spec`.
    open spec fn partial_cmp_spec(&self, other: &Self) -> Option<Ordering> {
        None
    }
}

} // verus!
