//! A list that keeps its items in insertion order and finds named items by name.
use vstd::prelude::*;
use vstd::std_specs::cmp::PartialEqSpec;
use vstd::std_specs::iter::IteratorSpec;

verus! {

/// An item that may have a name.
pub trait OrdMapItem<K> {
    /// The name of this item, if it has one.
    spec fn key(&self) -> Option<K>;

    /// The name of this item, if it has one.
    fn name(&self) -> (r: Option<K>)
        ensures
            r == self.key(),
    ;
}

/// Whether `K`'s `==` is an equivalence that follows its specification.
pub open spec fn key_law<K: PartialEq>() -> bool {
    &&& K::obeys_eq_spec()
    &&& forall|x: K| #[trigger] x.eq_spec(&x)
    &&& forall|x: K, y: K| #[trigger] x.eq_spec(&y) ==> y.eq_spec(&x)
    &&& forall|x: K, y: K, z: K| #[trigger] x.eq_spec(&y) && #[trigger] y.eq_spec(&z) ==> x.eq_spec(&z)
}

/// Whether the item at `i` of `items` has the name `name`.
pub open spec fn named_at<K: PartialEq, T: OrdMapItem<K>>(items: Seq<T>, i: int, name: K) -> bool {
    0 <= i < items.len() && (items[i].key() matches Some(n) && n.eq_spec(&name))
}

/// Whether an item of `items` has the name `name`.
pub open spec fn has_name<K: PartialEq, T: OrdMapItem<K>>(items: Seq<T>, name: K) -> bool {
    exists|i: int| named_at(items, i, name)
}

/// Whether no two items of `items` have the same name.
pub open spec fn unique_names<K: PartialEq, T: OrdMapItem<K>>(items: Seq<T>) -> bool {
    forall|i: int, j: int|
        0 <= i < items.len() && 0 <= j < items.len() && i != j ==> !((#[trigger] items[i]).key() matches Some(
            a,
        ) && (#[trigger] items[j]).key() matches Some(b) && a.eq_spec(&b))
}

/// Items in insertion order, found by name: a lookup finds the last item
/// of the name.  Items pushed one by one have distinct names; a map made
/// from a vector keeps the vector's items, repeated names included.
pub struct OrdMap<K: PartialEq, T: OrdMapItem<K>> {
    vec: Vec<T>,
    names: core::marker::PhantomData<K>,
}

impl<K: PartialEq, T: OrdMapItem<K>> View for OrdMap<K, T> {
    type V = Seq<T>;

    closed spec fn view(&self) -> Seq<T> {
        self.vec@
    }
}

impl<K: PartialEq, T: OrdMapItem<K>> OrdMap<K, T> {
    /// The empty map.
    pub fn new() -> (m: OrdMap<K, T>)
        ensures
            m@ == Seq::<T>::empty(),
    {
        OrdMap { vec: Vec::new(), names: core::marker::PhantomData }
    }

    /// The map of the items of `vec`, in their order.
    pub fn from_vec(vec: Vec<T>) -> (m: OrdMap<K, T>)
        ensures
            m@ == vec@,
    {
        OrdMap { vec, names: core::marker::PhantomData }
    }

    /// The items, in insertion order.
    pub fn iter(&self) -> (it: std::slice::Iter<'_, T>)
        ensures
            IteratorSpec::remaining(&it) == self@.map_values(|t: T| &t),
    {
        broadcast use vstd::std_specs::slice::axiom_spec_slice_iter;

        let sl = self.vec.as_slice();
        let it = sl.iter();
        assert(sl@.map_values(|t: T| &t) =~= self@.map_values(|t: T| &t));
        it
    }

    /// The number of items.
    pub fn len(&self) -> (n: usize)
        ensures
            n == self@.len(),
    {
        self.vec.len()
    }

    /// Whether there are no items.
    pub fn is_empty(&self) -> (r: bool)
        ensures
            r == (self@.len() == 0),
    {
        self.vec.len() == 0
    }

    /// The index of the last item named `name`, if there is one.
    fn position(&self, name: &K) -> (r: Option<usize>)
        ensures
            r matches Some(i) ==> i < self@.len(),
            key_law::<K>() ==> (r matches Some(i) ==> last_named_at(self@, i as int, *name)),
            key_law::<K>() ==> (r is None ==> !has_name(self@, *name)),
    {
        let mut i = self.vec.len();
        while i > 0
            invariant
                i <= self@.len(),
                key_law::<K>() ==> forall|j: int| i <= j < self@.len() ==> !named_at(self@, j, *name),
            decreases i,
        {
            match self.vec[i - 1].name() {
                Some(n) => {
                    if n == *name {
                        return Some(i - 1);
                    }
                },
                None => {},
            }
            i = i - 1;
        }
        None
    }

    /// The last item named `name`, if there is one.
    pub fn get(&self, name: &K) -> (r: Option<&T>)
        ensures
            key_law::<K>() ==> (r matches Some(t) ==> exists|i: int|
                last_named_at(self@, i, *name) && self@[i] == *t),
            key_law::<K>() ==> (r is None ==> !has_name(self@, *name)),
    {
        match self.position(name) {
            Some(i) => Some(&self.vec[i]),
            None => None,
        }
    }

    /// Adds `item` at the end; where an item of the same name is there
    /// already, leaves the map as it is and gives the name back as the error.
    pub fn push(&mut self, item: T) -> (r: Result<(), K>)
        ensures
            key_law::<K>() ==> (item.key() is Some && has_name(old(self)@, item.key()->0) ==> r
                == Err::<(), K>(item.key()->0) && final(self)@ == old(self)@),
            key_law::<K>() ==> (!(item.key() is Some && has_name(old(self)@, item.key()->0)) ==> r is Ok
                && final(self)@ == old(self)@.push(item)),
            key_law::<K>() ==> (unique_names(old(self)@) ==> unique_names(final(self)@)),
    {
        match item.name() {
            Some(name) => {
                match self.position(&name) {
                    Some(_) => {
                        return Err(name);
                    },
                    None => {},
                }
            },
            None => {},
        }
        let ghost before = self.vec@;
        let mut items: Vec<T> = Vec::new();
        std::mem::swap(&mut items, &mut self.vec);
        items.push(item);
        proof {
            if key_law::<K>() && unique_names(before) {
                let s = items@;
                assert forall|i: int, j: int|
                    0 <= i < s.len() && 0 <= j < s.len() && i != j implies !((#[trigger] s[i]).key() matches Some(
                        a,
                    ) && (#[trigger] s[j]).key() matches Some(b) && a.eq_spec(&b)) by {
                    if i < before.len() && j < before.len() {
                        assert(s[i] == before[i] && s[j] == before[j]);
                    } else if i == before.len() {
                        if let (Some(a), Some(b)) = (s[i].key(), s[j].key()) {
                            if a.eq_spec(&b) {
                                assert(b.eq_spec(&b));
                                assert(named_at(before, j, a)) by {
                                    assert(b.eq_spec(&a));
                                }
                            }
                        }
                    } else {
                        if let (Some(a), Some(b)) = (s[i].key(), s[j].key()) {
                            if a.eq_spec(&b) {
                                assert(named_at(before, i, b));
                            }
                        }
                    }
                }
            }
        }
        self.vec = items;
        Ok(())
    }

    /// The names of the named items, each once: the name of each item
    /// that no later item has, in insertion order.
    pub fn keys(&self) -> (r: Vec<K>)
        ensures
            key_law::<K>() ==> r@ == last_names(self@),
            key_law::<K>() ==> distinct_keys(r@),
            key_law::<K>() ==> forall|i: int| 0 <= i < r@.len() ==> has_name(self@, #[trigger] r@[i]),
    {
        proof {
            if key_law::<K>() {
                lemma_keys_listed_once(self@);
            }
        }
        let ghost items = self@;
        let mut out: Vec<K> = Vec::new();
        let n = self.vec.len();
        assert(items.skip(0) =~= items);
        for i in 0..n
            invariant
                n == items.len(),
                items == self@,
                key_law::<K>() ==> last_names(items) == out@ + last_names(items.skip(i as int)),
        {
            let ghost rest = items.skip(i + 1);
            assert(items.skip(i as int).drop_first() =~= rest);
            assert(items.skip(i as int)[0] == items[i as int]);
            match self.vec[i].name() {
                Some(k) => {
                    let mut later = false;
                    let mut j = i + 1;
                    while j < n
                        invariant
                            n == items.len(),
                            items == self@,
                            i < j <= n,
                            rest == items.skip(i + 1),
                            key_law::<K>() ==> (later <==> exists|q: int| i + 1 <= q < j && #[trigger] named_at(items, q, k)),
                        decreases n - j,
                    {
                        let ghost was = later;
                        match self.vec[j].name() {
                            Some(m) => {
                                if m == k {
                                    later = true;
                                }
                            },
                            None => {},
                        }
                        proof {
                            if key_law::<K>() {
                                if later && !was {
                                    assert(named_at(items, j as int, k));
                                }
                                if !later {
                                    assert(!named_at(items, j as int, k));
                                    assert forall|q: int| i + 1 <= q < j + 1 implies !#[trigger] named_at(items, q, k) by {
                                        if q < j {
                                        }
                                    }
                                }
                            }
                        }
                        j = j + 1;
                    }
                    proof {
                        if key_law::<K>() {
                            if later {
                                let q = choose|q: int| i + 1 <= q < n && named_at(items, q, k);
                                assert(rest[q - i - 1] == items[q]);
                                assert(named_at(rest, q - i - 1, k));
                            } else {
                                assert forall|q: int| !#[trigger] named_at(rest, q, k) by {
                                    if 0 <= q < rest.len() {
                                        assert(rest[q] == items[q + i + 1]);
                                        assert(!named_at(items, q + i + 1, k));
                                    }
                                }
                            }
                        }
                    }
                    if !later {
                        let ghost before = out@;
                        out.push(k);
                        assert(key_law::<K>() ==> last_names(items) == out@ + last_names(rest)) by {
                            if key_law::<K>() {
                                assert(before + (seq![k] + last_names(rest)) =~= out@ + last_names(rest));
                            }
                        }
                    }
                },
                None => {},
            }
        }
        assert(items.skip(n as int) =~= Seq::<T>::empty());
        out
    }
}

impl<K: PartialEq, T: OrdMapItem<K>> Default for OrdMap<K, T> {
    /// The empty map.
    fn default() -> (m: OrdMap<K, T>)
        ensures
            m@ == Seq::<T>::empty(),
    {
        OrdMap::new()
    }
}

/// An item pushed under a name that the map did not hold is the one item
/// that the map holds under that name: a lookup of the name finds it.
pub proof fn lemma_push_then_get<K: PartialEq, T: OrdMapItem<K>>(items: Seq<T>, item: T)
    requires
        key_law::<K>(),
        unique_names(items),
        item.key() is Some,
        !has_name(items, item.key()->0),
    ensures
        named_at(items.push(item), items.len() as int, item.key()->0),
        forall|i: int| #[trigger] named_at(items.push(item), i, item.key()->0) ==> i == items.len(),
{
    let k = item.key()->0;
    let s = items.push(item);
    assert(s[items.len() as int] == item);
    assert(k.eq_spec(&k));
    assert forall|i: int| #[trigger] named_at(s, i, k) implies i == items.len() by {
        if i < items.len() {
            assert(s[i] == items[i]);
            assert(named_at(items, i, k));
        }
    }
}

/// No two names of `ks` are equal.
pub open spec fn distinct_keys<K: PartialEq>(ks: Seq<K>) -> bool {
    forall|i: int, j: int|
        #![trigger ks[i], ks[j]]
        0 <= i < ks.len() && 0 <= j < ks.len() && i != j ==> !ks[i].eq_spec(&ks[j])
}

/// Whether the item at `i` has the name `name` and no later item has it.
pub open spec fn last_named_at<K: PartialEq, T: OrdMapItem<K>>(items: Seq<T>, i: int, name: K) -> bool {
    named_at(items, i, name) && forall|j: int| i < j < items.len() ==> !named_at(items, j, name)
}

/// The names of the items that no later item's name equals, in order.
pub open spec fn last_names<K: PartialEq, T: OrdMapItem<K>>(items: Seq<T>) -> Seq<K>
    decreases items.len(),
{
    if items.len() == 0 {
        Seq::empty()
    } else {
        let rest = last_names(items.drop_first());
        match items[0].key() {
            Some(k) => if has_name(items.drop_first(), k) {
                rest
            } else {
                seq![k] + rest
            },
            None => rest,
        }
    }
}

/// Each name that `last_names` lists is the name of an item.
proof fn lemma_last_names_source<K: PartialEq, T: OrdMapItem<K>>(items: Seq<T>)
    ensures
        forall|i: int|
            0 <= i < last_names(items).len() ==> exists|j: int|
                0 <= j < items.len() && (#[trigger] items[j]).key() == Some(#[trigger] last_names(items)[i]),
    decreases items.len(),
{
    if items.len() > 0 {
        let d = items.drop_first();
        lemma_last_names_source(d);
        let ln = last_names(items);
        let ld = last_names(d);
        assert forall|i: int| 0 <= i < ln.len() implies exists|j: int|
            0 <= j < items.len() && (#[trigger] items[j]).key() == Some(#[trigger] ln[i]) by {
            let off = ln.len() - ld.len();
            if i >= off {
                assert(ln[i] == ld[i - off]);
                let j = choose|j: int| 0 <= j < d.len() && (#[trigger] d[j]).key() == Some(ld[i - off]);
                assert(items[j + 1] == d[j]);
            } else {
                assert(items[0].key() == Some(ln[i]));
            }
        }
    }
}

/// Each name is listed once by `last_names`, and each listed name is the
/// name of an item, which a lookup finds.
pub proof fn lemma_keys_listed_once<K: PartialEq, T: OrdMapItem<K>>(items: Seq<T>)
    requires
        key_law::<K>(),
    ensures
        distinct_keys(last_names(items)),
        forall|i: int| 0 <= i < last_names(items).len() ==> has_name(items, #[trigger] last_names(items)[i]),
    decreases items.len(),
{
    lemma_last_names_source(items);
    if items.len() > 0 {
        let d = items.drop_first();
        lemma_keys_listed_once(d);
        lemma_last_names_source(d);
        let ln = last_names(items);
        let ld = last_names(d);
        if ln.len() != ld.len() {
            let k = items[0].key()->0;
            assert(ln == seq![k] + ld);
            assert(!has_name(d, k));
            assert forall|i: int, j: int|
                #![trigger ln[i], ln[j]]
                0 <= i < ln.len() && 0 <= j < ln.len() && i != j implies !ln[i].eq_spec(&ln[j]) by {
                if i > 0 && j > 0 {
                    assert(ln[i] == ld[i - 1] && ln[j] == ld[j - 1]);
                } else {
                    let o = if i == 0 { j } else { i };
                    assert(ln[o] == ld[o - 1]);
                    let q = choose|q: int| 0 <= q < d.len() && (#[trigger] d[q]).key() == Some(ld[o - 1]);
                    if ln[i].eq_spec(&ln[j]) {
                        assert(ln[o].eq_spec(&k));
                        assert(named_at(d, q, k));
                    }
                }
            }
        }
    }
    let ns = last_names(items);
    assert forall|i: int| 0 <= i < ns.len() implies has_name(items, #[trigger] ns[i]) by {
        let j = choose|j: int| 0 <= j < items.len() && (#[trigger] items[j]).key() == Some(ns[i]);
        assert(ns[i].eq_spec(&ns[i]));
        assert(named_at(items, j, ns[i]));
    }
}

/// In a map whose items have distinct names, as pushing makes it, every
/// name of an item is among the keys.
pub proof fn lemma_unique_names_listed<K: PartialEq, T: OrdMapItem<K>>(items: Seq<T>, i: int)
    requires
        key_law::<K>(),
        unique_names(items),
        0 <= i < items.len(),
        items[i].key() is Some,
    ensures
        last_names(items).contains(items[i].key()->0),
    decreases i,
{
    let d = items.drop_first();
    let k = items[i].key()->0;
    assert forall|a: int, b: int|
        0 <= a < d.len() && 0 <= b < d.len() && a != b implies !((#[trigger] d[a]).key() matches Some(x)
        && (#[trigger] d[b]).key() matches Some(y) && x.eq_spec(&y)) by {
        assert(d[a] == items[a + 1] && d[b] == items[b + 1]);
    }
    if i == 0 {
        if has_name(d, k) {
            let q = choose|q: int| named_at(d, q, k);
            assert(d[q] == items[q + 1]);
            assert(k.eq_spec(&k));
        }
        assert(last_names(items)[0] == k);
    } else {
        assert(d[i - 1] == items[i]);
        lemma_unique_names_listed(d, i - 1);
        let ld = last_names(d);
        let j = choose|j: int| 0 <= j < ld.len() && ld[j] == k;
        let ln = last_names(items);
        if ln.len() != ld.len() {
            assert(ln[j + 1] == ld[j]);
        } else {
            assert(ln[j] == ld[j]);
        }
    }
}

} // verus!
