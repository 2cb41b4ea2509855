//! The order of names, and a map that is sorted by name.
//!
//! Names are compared as `str` is: byte by byte.

use vstd::prelude::*;
use vstd::utf8::encode_utf8;

verus! {

/// `a` comes before `b` at the first byte in which they differ, or `b` goes on where `a` ends.
pub open spec fn bytes_before(a: Seq<u8>, b: Seq<u8>) -> bool
    decreases a.len(),
{
    if b.len() == 0 {
        false
    } else if a.len() == 0 {
        true
    } else if a[0] == b[0] {
        bytes_before(a.drop_first(), b.drop_first())
    } else {
        a[0] < b[0]
    }
}

/// The order of names.
pub open spec fn before(a: Seq<char>, b: Seq<char>) -> bool {
    bytes_before(encode_utf8(a), encode_utf8(b))
}

/// Every name comes before all that follow it, so none occurs twice.
pub open spec fn ascending(names: Seq<Seq<char>>) -> bool {
    forall|i: int, j: int| 0 <= i < j < names.len() ==> before(#[trigger] names[i], #[trigger] names[j])
}

/// All names of a finite set in ascending order.
pub open spec fn listing(names: Set<Seq<char>>) -> Seq<Seq<char>> {
    choose|list: Seq<Seq<char>>| ascending(list) && #[trigger] list.to_set() == names
}

proof fn lemma_bytes_before_irreflexive(a: Seq<u8>)
    ensures
        !bytes_before(a, a),
    decreases a.len(),
{
    if a.len() > 0 {
        lemma_bytes_before_irreflexive(a.drop_first());
    }
}

proof fn lemma_bytes_before_transitive(a: Seq<u8>, b: Seq<u8>, c: Seq<u8>)
    requires
        bytes_before(a, b),
        bytes_before(b, c),
    ensures
        bytes_before(a, c),
    decreases a.len(),
{
    if a.len() > 0 && a[0] == b[0] && b[0] == c[0] {
        lemma_bytes_before_transitive(a.drop_first(), b.drop_first(), c.drop_first());
    }
}

proof fn lemma_bytes_before_total(a: Seq<u8>, b: Seq<u8>)
    requires
        !bytes_before(a, b),
        !bytes_before(b, a),
    ensures
        a == b,
    decreases a.len(),
{
    if a.len() > 0 && b.len() > 0 {
        lemma_bytes_before_total(a.drop_first(), b.drop_first());
        assert(a =~= seq![a[0]] + a.drop_first());
        assert(b =~= seq![b[0]] + b.drop_first());
    } else {
        assert(a =~= b);
    }
}

/// No name comes before itself.
pub proof fn law_before_irreflexive(a: Seq<char>)
    ensures
        !before(a, a),
{
    lemma_bytes_before_irreflexive(encode_utf8(a));
}

/// The order of names is transitive.
pub proof fn law_before_transitive(a: Seq<char>, b: Seq<char>, c: Seq<char>)
    requires
        before(a, b),
        before(b, c),
    ensures
        before(a, c),
{
    lemma_bytes_before_transitive(encode_utf8(a), encode_utf8(b), encode_utf8(c));
}

/// Of two different names one comes before the other.
pub proof fn law_before_total(a: Seq<char>, b: Seq<char>)
    ensures
        a == b || before(a, b) || before(b, a),
{
    if !before(a, b) && !before(b, a) {
        lemma_bytes_before_total(encode_utf8(a), encode_utf8(b));
        vstd::utf8::encode_utf8_decode_utf8(a);
        vstd::utf8::encode_utf8_decode_utf8(b);
    }
}

/// A set of names has one ascending listing at most.
pub proof fn law_listing_unique(a: Seq<Seq<char>>, b: Seq<Seq<char>>)
    requires
        ascending(a),
        ascending(b),
        a.to_set() == b.to_set(),
    ensures
        a == b,
    decreases a.len(),
{
    assert forall|n: Seq<char>|
        #![trigger a.contains(n)]
        #![trigger b.contains(n)]
        a.contains(n) == b.contains(n) by {
        assert(a.to_set().contains(n) == a.contains(n));
        assert(b.to_set().contains(n) == b.contains(n));
    }
    if a.len() == 0 {
        if b.len() > 0 {
            assert(b.contains(b[0]));
        }
        assert(a =~= b);
    } else {
        assert(a.contains(a[0]));
        let i = choose|i: int| 0 <= i < b.len() && b[i] == a[0];
        assert(b.contains(b[0]));
        let j = choose|j: int| 0 <= j < a.len() && a[j] == b[0];
        assert(i == 0) by {
            if i > 0 {
                assert(before(b[0], b[i]));
                if j > 0 {
                    assert(before(a[0], a[j]));
                    law_before_transitive(a[0], b[0], a[0]);
                }
                law_before_irreflexive(a[0]);
            }
        }
        let ra = a.drop_first();
        let rb = b.drop_first();
        assert forall|n: Seq<char>| ra.to_set().contains(n) == rb.to_set().contains(n) by {
            law_before_irreflexive(a[0]);
            if ra.contains(n) {
                let k = choose|k: int| 0 <= k < ra.len() && ra[k] == n;
                assert(a[k + 1] == n && before(a[0], a[k + 1]));
                assert(a.contains(n));
                let m = choose|m: int| 0 <= m < b.len() && b[m] == n;
                assert(rb[m - 1] == n);
            }
            if rb.contains(n) {
                let k = choose|k: int| 0 <= k < rb.len() && rb[k] == n;
                assert(b[k + 1] == n && before(b[0], b[k + 1]));
                assert(b.contains(n));
                let m = choose|m: int| 0 <= m < a.len() && a[m] == n;
                assert(ra[m - 1] == n);
            }
        }
        assert(ra.to_set() =~= rb.to_set());
        law_listing_unique(ra, rb);
        assert(a =~= seq![a[0]] + ra);
        assert(b =~= seq![b[0]] + rb);
    }
}

/// An ascending list is the listing of its names.
pub proof fn lemma_is_listing(list: Seq<Seq<char>>)
    requires
        ascending(list),
    ensures
        listing(list.to_set()) == list,
{
    let other = listing(list.to_set());
    assert(ascending(other) && other.to_set() == list.to_set());
    law_listing_unique(list, other);
}

/// The ascending list with one more name.
proof fn lemma_one_more(list: Seq<Seq<char>>, name: Seq<char>) -> (more: Seq<Seq<char>>)
    requires
        ascending(list),
        !list.contains(name),
    ensures
        ascending(more),
        more.to_set() == list.to_set().insert(name),
    decreases list.len(),
{
    let more = if list.len() == 0 || before(list.last(), name) {
        assert forall|i: int| 0 <= i < list.len() implies before(#[trigger] list[i], name) by {
            if i < list.len() - 1 {
                assert(before(list[i], list[list.len() - 1]));
                law_before_transitive(list[i], list.last(), name);
            }
        }
        lemma_pushed(list, name);
        list.push(name)
    } else {
        let rest = list.drop_last();
        let last = list.last();
        assert(list[list.len() - 1] == last);
        law_before_total(last, name);
        let inner = lemma_one_more(rest, name);
        assert forall|i: int| 0 <= i < inner.len() implies before(#[trigger] inner[i], last) by {
            assert(inner.to_set().contains(inner[i]));
            if inner[i] != name {
                assert(rest.to_set().contains(inner[i]));
                let j = choose|j: int| 0 <= j < rest.len() && rest[j] == inner[i];
                assert(before(list[j], list[list.len() - 1]));
            }
        }
        lemma_pushed(inner, last);
        lemma_pushed(rest, last);
        assert(rest.push(last) =~= list);
        assert(inner.push(last).to_set() =~= list.to_set().insert(name));
        inner.push(last)
    };
    more
}

proof fn lemma_pushed(list: Seq<Seq<char>>, name: Seq<char>)
    ensures
        list.push(name).to_set() == list.to_set().insert(name),
{
    assert forall|n: Seq<char>| list.push(name).to_set().contains(n) == list.to_set().insert(name).contains(
        n,
    ) by {
        if list.contains(n) {
            let i = choose|i: int| 0 <= i < list.len() && list[i] == n;
            assert(list.push(name)[i] == n);
        }
        if n == name {
            assert(list.push(name)[list.len() as int] == n);
        }
    }
    assert(list.push(name).to_set() =~= list.to_set().insert(name));
}

/// Every finite set of names has an ascending listing: it holds all names of the set, each once.
pub proof fn law_listing(names: Set<Seq<char>>)
    requires
        names.finite(),
    ensures
        ascending(listing(names)),
        listing(names).to_set() == names,
    decreases names.len(),
{
    if names.len() == 0 {
        let list = Seq::<Seq<char>>::empty();
        assert(ascending(list));
        assert(list.to_set() =~= names);
    } else {
        let name = names.choose();
        let rest = names.remove(name);
        law_listing(rest);
        let list = listing(rest);
        if list.contains(name) {
            assert(list.to_set().contains(name));
        }
        let more = lemma_one_more(list, name);
        assert(more.to_set() =~= names);
    }
}

/// Whether `a` comes before `b`.
pub(crate) fn is_before(a: &str, b: &str) -> (r: bool)
    ensures
        r == before(a@, b@),
{
    let x = a.as_bytes();
    let y = b.as_bytes();
    let mut i: usize = 0;
    assert(x@.skip(0) =~= x@);
    assert(y@.skip(0) =~= y@);
    while i < x.len() && i < y.len() && x[i] == y[i]
        invariant
            i <= x@.len(),
            i <= y@.len(),
            bytes_before(x@, y@) == bytes_before(x@.skip(i as int), y@.skip(i as int)),
        decreases x@.len() - i,
    {
        assert(x@.skip(i as int).drop_first() =~= x@.skip(i + 1));
        assert(y@.skip(i as int).drop_first() =~= y@.skip(i + 1));
        i += 1;
    }
    if i < y.len() {
        i == x.len() || x[i] < y[i]
    } else {
        false
    }
}

/// A map from names to values that is walked in the order of the names.
pub struct NameMap<V> {
    keys: Vec<String>,
    values: Vec<V>,
}

/// The views of strings.
pub open spec fn texts(strings: Seq<String>) -> Seq<Seq<char>> {
    strings.map_values(|s: String| s@)
}

impl<V> View for NameMap<V> {
    type V = Map<Seq<char>, V>;

    closed spec fn view(&self) -> Map<Seq<char>, V> {
        Map::new(
            |name: Seq<char>| texts(self.keys@).contains(name),
            |name: Seq<char>| self.values@[texts(self.keys@).index_of(name)],
        )
    }
}

impl<V> NameMap<V> {
    /// The keys ascend, and each has one value.
    pub closed spec fn wf(&self) -> bool {
        &&& self.keys@.len() == self.values@.len()
        &&& ascending(texts(self.keys@))
    }

    proof fn lemma_entry(&self, i: int)
        requires
            self.wf(),
            0 <= i < self.keys@.len(),
        ensures
            self@.dom().contains(self.keys@[i]@),
            self@[self.keys@[i]@] == self.values@[i],
            texts(self.keys@).index_of(self.keys@[i]@) == i,
    {
        let names = texts(self.keys@);
        assert(names[i] == self.keys@[i]@);
        assert(names.contains(names[i]));
        let j = names.index_of(names[i]);
        assert(0 <= j < names.len() && names[j] == names[i]);
        law_before_irreflexive(names[i]);
        if i < j {
            assert(before(names[i], names[j]));
        }
        if j < i {
            assert(before(names[j], names[i]));
        }
    }

    proof fn lemma_update(self, other: Self, i: int, value: V)
        requires
            self.wf(),
            0 <= i < self.keys@.len(),
            other.keys == self.keys,
            other.values@ == self.values@.update(i, value),
        ensures
            other.wf(),
            other@ == self@.insert(self.keys@[i]@, value),
    {
        let names = texts(self.keys@);
        assert(names[i] == self.keys@[i]@);
        assert forall|name: Seq<char>| #[trigger] other@.dom().contains(name) implies other@[name]
            == self@.insert(names[i], value)[name] by {
            let k = names.index_of(name);
            assert(names[k] == name);
            other.lemma_entry(k);
            self.lemma_entry(k);
            self.lemma_entry(i);
        }
        assert(other@ =~= self@.insert(names[i], value));
    }

    proof fn lemma_listing(&self)
        requires
            self.wf(),
        ensures
            self@.dom().finite(),
            listing(self@.dom()) == texts(self.keys@),
            self@.dom() == texts(self.keys@).to_set(),
    {
        assert(self@.dom() =~= texts(self.keys@).to_set());
        lemma_is_listing(texts(self.keys@));
    }

    /// There are finitely many names.
    pub proof fn lemma_finite(&self)
        requires
            self.wf(),
        ensures
            self@.dom().finite(),
    {
        self.lemma_listing();
    }

    /// A map without names.
    pub fn new() -> (map: Self)
        ensures
            map.wf(),
            map@ == Map::<Seq<char>, V>::empty(),
    {
        let map = NameMap { keys: Vec::new(), values: Vec::new() };
        assert(map@ =~= Map::<Seq<char>, V>::empty());
        map
    }

    /// The number of names.
    pub fn len(&self) -> (n: usize)
        requires
            self.wf(),
        ensures
            n == listing(self@.dom()).len(),
            ascending(listing(self@.dom())),
            listing(self@.dom()).to_set() == self@.dom(),
            self@.dom().finite(),
    {
        proof {
            self.lemma_listing();
        }
        self.keys.len()
    }

    /// The name at a place of the ascending order.
    pub fn key(&self, i: usize) -> (name: &String)
        requires
            self.wf(),
            i < listing(self@.dom()).len(),
        ensures
            name@ == listing(self@.dom())[i as int],
            self@.dom().contains(name@),
    {
        proof {
            self.lemma_listing();
            self.lemma_entry(i as int);
        }
        &self.keys[i]
    }

    /// The value at a place of the ascending order.
    pub fn value(&self, i: usize) -> (value: &V)
        requires
            self.wf(),
            i < listing(self@.dom()).len(),
        ensures
            *value == self@[listing(self@.dom())[i as int]],
            self@.dom().contains(listing(self@.dom())[i as int]),
    {
        proof {
            self.lemma_listing();
            self.lemma_entry(i as int);
        }
        &self.values[i]
    }

    /// The value of `key`, to be changed in place, or `None` where the map has no such name.
    pub fn get_mut(&mut self, key: &str) -> (value: Option<&mut V>)
        requires
            old(self).wf(),
        ensures
            match value {
                Some(v) => {
                    &&& old(self)@.dom().contains(key@)
                    &&& *v == old(self)@[key@]
                    &&& final(self).wf()
                    &&& final(self)@ == old(self)@.insert(key@, *final(v))
                },
                None => !old(self)@.dom().contains(key@) && *final(self) == *old(self),
            },
    {
        let ghost start = *self;
        match self.place(key) {
            Some(i) => {
                proof {
                    start.lemma_entry(i as int);
                    assert forall|other: Self, v: V|
                        other.keys == start.keys && other.values@ == #[trigger] start.values@.update(
                            i as int,
                            v,
                        ) implies other.wf() && #[trigger] other@ == start@.insert(key@, v) by {
                        start.lemma_update(other, i as int, v);
                    }
                }
                Some(&mut self.values[i])
            },
            None => None,
        }
    }

    fn place(&self, key: &str) -> (place: Option<usize>)
        ensures
            match place {
                Some(i) => i < self.keys@.len() && self.keys@[i as int]@ == key@,
                None => !self@.dom().contains(key@),
            },
    {
        let mut i: usize = 0;
        while i < self.keys.len()
            invariant
                i <= self.keys@.len(),
                forall|j: int| 0 <= j < i ==> (#[trigger] self.keys@[j])@ != key@,
            decreases self.keys@.len() - i,
        {
            if crate::names::same(self.keys[i].as_str(), key) {
                return Some(i);
            }
            i += 1;
        }
        assert forall|j: int| 0 <= j < texts(self.keys@).len() implies texts(self.keys@)[j] != key@ by {
            assert(self.keys@[j]@ != key@);
        }
        None
    }

    /// Gives `key` the value `value`, in place of the one that it had.
    pub fn insert(&mut self, key: String, value: V)
        requires
            old(self).wf(),
        ensures
            final(self).wf(),
            final(self)@ == old(self)@.insert(key@, value),
    {
        let ghost names = texts(self.keys@);
        let ghost before_insert = *self;
        let mut i: usize = 0;
        while i < self.keys.len() && is_before(self.keys[i].as_str(), key.as_str())
            invariant
                *self == before_insert,
                i <= self.keys@.len(),
                forall|j: int| 0 <= j < i ==> before(#[trigger] self.keys@[j]@, key@),
            decreases self.keys@.len() - i,
        {
            i += 1;
        }
        if i < self.keys.len() && self.keys[i] == key {
            self.values.set(i, value);
            proof {
                before_insert.lemma_update(*self, i as int, value);
            }
        } else {
            let ghost name = key@;
            proof {
                if i < self.keys@.len() {
                    law_before_total(self.keys@[i as int]@, name);
                    assert forall|j: int| i <= j < names.len() implies before(name, #[trigger] names[j]) by {
                        if j > i {
                            assert(before(names[i as int], names[j]));
                            law_before_transitive(name, names[i as int], names[j]);
                        }
                    }
                }
            }
            self.keys.insert(i, key);
            self.values.insert(i, value);
            proof {
                let now = texts(self.keys@);
                assert(now =~= names.insert(i as int, name));
                assert forall|a: int, b: int| 0 <= a < b < now.len() implies before(
                    #[trigger] now[a],
                    #[trigger] now[b],
                ) by {
                    let oa = if a < i { a } else { a - 1 };
                    let ob = if b < i { b } else { b - 1 };
                    if a != i && b != i {
                        assert(now[a] == names[oa] && now[b] == names[ob]);
                    } else if a == i {
                        assert(now[b] == names[b - 1]);
                    } else {
                        assert(now[a] == before_insert.keys@[a]@);
                    }
                }
                assert(self.wf());
                assert forall|n: Seq<char>| now.contains(n) == (names.contains(n) || n == name) by {
                    if names.contains(n) {
                        let k = names.index_of(n);
                        let nk = if k < i { k } else { k + 1 };
                        assert(now[nk] == n);
                    }
                    if n == name {
                        assert(now[i as int] == n);
                    }
                    if now.contains(n) {
                        let k = now.index_of(n);
                        if k != i {
                            let ok = if k < i { k } else { k - 1 };
                            assert(names[ok] == n);
                        }
                    }
                }
                assert forall|n: Seq<char>| #[trigger] self@.dom().contains(n) implies self@[n]
                    == before_insert@.insert(name, value)[n] by {
                    let k = now.index_of(n);
                    assert(now[k] == n);
                    self.lemma_entry(k);
                    if k != i {
                        let ok = if k < i { k } else { k - 1 };
                        assert(names[ok] == n);
                        before_insert.lemma_entry(ok);
                        if n == name {
                            self.lemma_entry(i as int);
                        }
                    }
                }
                assert(self@ =~= before_insert@.insert(name, value));
            }
        }
    }
}

} // verus!
