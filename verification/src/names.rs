//! The byte-wise order of names, and finite maps from names that are kept in
//! that order.
use vstd::prelude::*;

verus! {

/// Lexicographic "less than" on byte strings, decided from index `i` on.
pub open spec fn bytes_lt_from(a: Seq<u8>, b: Seq<u8>, i: int) -> bool
    decreases a.len() - i,
{
    if i >= b.len() {
        false
    } else if i >= a.len() {
        true
    } else if a[i] != b[i] {
        a[i] < b[i]
    } else {
        bytes_lt_from(a, b, i + 1)
    }
}

/// Lexicographic "less than" on byte strings.
pub open spec fn bytes_lt(a: Seq<u8>, b: Seq<u8>) -> bool {
    bytes_lt_from(a, b, 0)
}

/// Byte-wise order of two names: the lexicographic order of their UTF-8
/// encodings.
pub open spec fn name_lt(a: Seq<char>, b: Seq<char>) -> bool {
    bytes_lt(vstd::utf8::encode_utf8(a), vstd::utf8::encode_utf8(b))
}

/// No byte string comes before itself.
pub proof fn lemma_bytes_lt_irreflexive(a: Seq<u8>, i: int)
    requires
        0 <= i,
    ensures
        !bytes_lt_from(a, a, i),
    decreases a.len() - i,
{
    if i < a.len() {
        lemma_bytes_lt_irreflexive(a, i + 1);
    }
}

/// The lexicographic order of byte strings is transitive.
pub proof fn lemma_bytes_lt_transitive(a: Seq<u8>, b: Seq<u8>, c: Seq<u8>, i: int)
    requires
        0 <= i,
        bytes_lt_from(a, b, i),
        bytes_lt_from(b, c, i),
    ensures
        bytes_lt_from(a, c, i),
    decreases a.len() - i,
{
    if i < a.len() && i < b.len() && i < c.len() && a[i] == b[i] && b[i] == c[i] {
        lemma_bytes_lt_transitive(a, b, c, i + 1);
    }
}

/// Two byte strings of which neither comes before the other are equal.
pub proof fn lemma_bytes_lt_total(a: Seq<u8>, b: Seq<u8>, i: int)
    requires
        0 <= i <= a.len(),
        i <= b.len(),
        a.take(i) == b.take(i),
        !bytes_lt_from(a, b, i),
        !bytes_lt_from(b, a, i),
    ensures
        a == b,
    decreases a.len() - i,
{
    if i < a.len() && i < b.len() {
        assert(a[i] == b[i]);
        assert(a.take(i + 1) =~= a.take(i).push(a[i]));
        assert(b.take(i + 1) =~= b.take(i).push(b[i]));
        lemma_bytes_lt_total(a, b, i + 1);
    } else {
        assert(i == a.len() && i == b.len());
        assert(a.take(i) =~= a);
        assert(b.take(i) =~= b);
    }
}

/// No name comes before itself.
pub proof fn lemma_name_lt_irreflexive(a: Seq<char>)
    ensures
        !name_lt(a, a),
{
    lemma_bytes_lt_irreflexive(vstd::utf8::encode_utf8(a), 0);
}

/// The byte-wise order of names is transitive.
pub proof fn lemma_name_lt_transitive(a: Seq<char>, b: Seq<char>, c: Seq<char>)
    requires
        name_lt(a, b),
        name_lt(b, c),
    ensures
        name_lt(a, c),
{
    lemma_bytes_lt_transitive(
        vstd::utf8::encode_utf8(a),
        vstd::utf8::encode_utf8(b),
        vstd::utf8::encode_utf8(c),
        0,
    );
}

/// Of two different names, one comes before the other.
pub proof fn lemma_name_lt_total(a: Seq<char>, b: Seq<char>)
    requires
        !name_lt(a, b),
        !name_lt(b, a),
    ensures
        a == b,
{
    let x = vstd::utf8::encode_utf8(a);
    let y = vstd::utf8::encode_utf8(b);
    assert(x.take(0) =~= y.take(0));
    lemma_bytes_lt_total(x, y, 0);
    vstd::utf8::encode_utf8_decode_utf8(a);
    vstd::utf8::encode_utf8_decode_utf8(b);
}

/// How one name stands to another in the byte-wise order.
#[derive(Debug, Clone, Copy, PartialEq, Eq, Structural)]
pub enum Rank {
    Before,
    Same,
    After,
}

/// The rank of `a` relative to `b`.
pub open spec fn spec_rank(a: Seq<char>, b: Seq<char>) -> Rank {
    if a == b {
        Rank::Same
    } else if name_lt(a, b) {
        Rank::Before
    } else {
        Rank::After
    }
}

/// Compares two names byte by byte.
pub fn rank(a: &str, b: &str) -> (r: Rank)
    ensures
        r == spec_rank(a@, b@),
        r == Rank::After ==> name_lt(b@, a@),
{
    let x = a.as_bytes();
    let y = b.as_bytes();
    let mut i: usize = 0;
    while i < x.len() && i < y.len()
        invariant
            i <= x.len(),
            i <= y.len(),
            x@ == vstd::utf8::encode_utf8(a@),
            y@ == vstd::utf8::encode_utf8(b@),
            x@.take(i as int) == y@.take(i as int),
            bytes_lt(x@, y@) == bytes_lt_from(x@, y@, i as int),
            bytes_lt(y@, x@) == bytes_lt_from(y@, x@, i as int),
        decreases x.len() - i,
    {
        if x[i] != y[i] {
            proof {
                if a@ == b@ {
                    assert(x@[i as int] == y@[i as int]);
                }
            }
            if x[i] < y[i] {
                return Rank::Before;
            } else {
                return Rank::After;
            }
        }
        proof {
            assert(x@.take(i + 1) =~= x@.take(i as int).push(x@[i as int]));
            assert(y@.take(i + 1) =~= y@.take(i as int).push(y@[i as int]));
        }
        i += 1;
    }
    proof {
        lemma_name_lt_irreflexive(a@);
        if !bytes_lt(x@, y@) && !bytes_lt(y@, x@) {
            lemma_name_lt_total(a@, b@);
        }
    }
    if i < y.len() {
        Rank::Before
    } else if i < x.len() {
        Rank::After
    } else {
        Rank::Same
    }
}

/// The names of a listing are strictly ascending in the byte-wise order.
pub open spec fn sorted_by_name<T>(l: Seq<(Seq<char>, T)>) -> bool {
    forall|i: int, j: int| 0 <= i < j < l.len() ==> name_lt(#[trigger] l[i].0, #[trigger] l[j].0)
}

/// Some entry of the listing carries the name `k`.
pub open spec fn listed<T>(l: Seq<(Seq<char>, T)>, k: Seq<char>) -> bool {
    exists|i: int| 0 <= i < l.len() && #[trigger] l[i].0 == k
}

/// The place of an entry that carries the name `k`.
pub open spec fn listing_index<T>(l: Seq<(Seq<char>, T)>, k: Seq<char>) -> int {
    choose|i: int| 0 <= i < l.len() && #[trigger] l[i].0 == k
}

/// The finite map that a listing of named entries stands for.
pub open spec fn listing_map<T>(l: Seq<(Seq<char>, T)>) -> Map<Seq<char>, T> {
    Map::new(|k: Seq<char>| listed(l, k), |k: Seq<char>| l[listing_index(l, k)].1)
}

/// In a sorted listing every entry is what the map holds under its name.
pub proof fn lemma_listing_entry<T>(l: Seq<(Seq<char>, T)>, i: int)
    requires
        sorted_by_name(l),
        0 <= i < l.len(),
    ensures
        listing_map(l).contains_key(l[i].0),
        listing_map(l)[l[i].0] == l[i].1,
{
    let k = l[i].0;
    assert(listed(l, k));
    let j = listing_index(l, k);
    lemma_name_lt_irreflexive(k);
    if j < i {
        assert(name_lt(l[j].0, l[i].0));
    } else if i < j {
        assert(name_lt(l[i].0, l[j].0));
    }
}

/// Putting a new name in its place in a sorted listing adds it to the map.
pub proof fn lemma_listing_insert<T>(l: Seq<(Seq<char>, T)>, i: int, k: Seq<char>, v: T)
    requires
        sorted_by_name(l),
        0 <= i <= l.len(),
        forall|j: int| 0 <= j < i ==> name_lt(#[trigger] l[j].0, k),
        forall|j: int| i <= j < l.len() ==> name_lt(k, #[trigger] l[j].0),
    ensures
        sorted_by_name(l.insert(i, (k, v))),
        listing_map(l.insert(i, (k, v))) == listing_map(l).insert(k, v),
{
    let m = l.insert(i, (k, v));
    assert forall|a: int, b: int| 0 <= a < b < m.len() implies name_lt(
        #[trigger] m[a].0,
        #[trigger] m[b].0,
    ) by {
        let a0 = if a < i { a } else { a - 1 };
        let b0 = if b < i { b } else { b - 1 };
        if a == i {
            assert(m[b] == l[b0]);
        } else if b == i {
            assert(m[a] == l[a0]);
        } else {
            assert(m[a] == l[a0]);
            assert(m[b] == l[b0]);
            assert(name_lt(l[a0].0, l[b0].0));
        }
    }
    let lhs = listing_map(m);
    let rhs = listing_map(l).insert(k, v);
    assert forall|x: Seq<char>| lhs.contains_key(x) <==> rhs.contains_key(x) by {
        if lhs.contains_key(x) {
            let a = listing_index(m, x);
            if a != i {
                let a0 = if a < i { a } else { a - 1 };
                assert(m[a] == l[a0]);
                assert(listed(l, x));
            }
        }
        if rhs.contains_key(x) {
            if x == k {
                assert(m[i].0 == k);
            } else {
                let a0 = listing_index(l, x);
                let a = if a0 < i { a0 } else { a0 + 1 };
                assert(m[a] == l[a0]);
            }
            assert(listed(m, x));
        }
    }
    assert forall|x: Seq<char>| lhs.contains_key(x) implies lhs[x] == rhs[x] by {
        let a = listing_index(m, x);
        lemma_listing_entry(m, a);
        if a != i {
            let a0 = if a < i { a } else { a - 1 };
            assert(m[a] == l[a0]);
            lemma_listing_entry(l, a0);
            lemma_name_lt_irreflexive(k);
        }
    }
    assert(lhs =~= rhs);
}

/// Replacing the value under a name that a sorted listing holds updates the map.
pub proof fn lemma_listing_update<T>(l: Seq<(Seq<char>, T)>, i: int, v: T)
    requires
        sorted_by_name(l),
        0 <= i < l.len(),
    ensures
        sorted_by_name(l.update(i, (l[i].0, v))),
        listing_map(l.update(i, (l[i].0, v))) == listing_map(l).insert(l[i].0, v),
{
    let k = l[i].0;
    let m = l.update(i, (k, v));
    assert forall|a: int, b: int| 0 <= a < b < m.len() implies name_lt(
        #[trigger] m[a].0,
        #[trigger] m[b].0,
    ) by {
        assert(m.len() == l.len());
        assert(m[a].0 == l[a].0);
        assert(m[b].0 == l[b].0);
        assert(name_lt(l[a].0, l[b].0));
    }
    let lhs = listing_map(m);
    let rhs = listing_map(l).insert(k, v);
    assert forall|x: Seq<char>| lhs.contains_key(x) <==> rhs.contains_key(x) by {
        if lhs.contains_key(x) {
            let a = listing_index(m, x);
            assert(l[a].0 == x);
            assert(listed(l, x));
        }
        if rhs.contains_key(x) {
            if x == k {
                assert(m[i].0 == k);
            } else {
                let a = listing_index(l, x);
                assert(m[a].0 == x);
            }
            assert(listed(m, x));
        }
    }
    assert forall|x: Seq<char>| lhs.contains_key(x) implies lhs[x] == rhs[x] by {
        let a = listing_index(m, x);
        lemma_listing_entry(m, a);
        if a != i {
            assert(m[a] == l[a]);
            lemma_listing_entry(l, a);
            lemma_name_lt_irreflexive(k);
            if a < i {
                assert(name_lt(l[a].0, l[i].0));
            } else {
                assert(name_lt(l[i].0, l[a].0));
            }
        } else {
            assert(m[i].1 == v);
        }
    }
    assert(lhs =~= rhs);
}

/// The model of a list of named values: each name as its characters.
pub open spec fn entries_view<T>(entries: Seq<(String, T)>) -> Seq<(Seq<char>, T)> {
    Seq::new(entries.len(), |i: int| (entries[i].0@, entries[i].1))
}

/// A finite map from names to values, kept as a listing in ascending byte-wise
/// order of the names.
#[derive(Debug)]
pub struct NameTable<T> {
    entries: Vec<(String, T)>,
}

impl<T> View for NameTable<T> {
    type V = Map<Seq<char>, T>;

    /// The map that the table stands for.
    open spec fn view(&self) -> Map<Seq<char>, T> {
        listing_map(self.listing())
    }
}

impl<T> NameTable<T> {
    /// The entries in the order in which the table holds them.
    pub closed spec fn listing(&self) -> Seq<(Seq<char>, T)> {
        Seq::new(self.entries@.len(), |i: int| (self.entries@[i].0@, self.entries@[i].1))
    }

    /// The table's invariant: names ascend strictly, so none occurs twice.
    pub open spec fn wf(&self) -> bool {
        sorted_by_name(self.listing())
    }

    /// The empty table.
    pub fn new() -> (r: Self)
        ensures
            r.wf(),
            r.listing() == Seq::<(Seq<char>, T)>::empty(),
            r@ == Map::<Seq<char>, T>::empty(),
    {
        let r = NameTable { entries: Vec::new() };
        proof {
            assert(r.listing() =~= Seq::<(Seq<char>, T)>::empty());
            assert(r@ =~= Map::<Seq<char>, T>::empty());
        }
        r
    }

    /// The number of names in the table.
    pub fn len(&self) -> (n: usize)
        ensures
            n == self.listing().len(),
    {
        self.entries.len()
    }

    /// The name of the `i`-th entry in ascending order.
    pub fn name_at(&self, i: usize) -> (r: &String)
        requires
            i < self.listing().len(),
        ensures
            r@ == self.listing()[i as int].0,
    {
        &self.entries[i].0
    }

    /// The value of the `i`-th entry in ascending order of the names.
    pub fn value_at(&self, i: usize) -> (r: &T)
        requires
            i < self.listing().len(),
        ensures
            *r == self.listing()[i as int].1,
    {
        &self.entries[i].1
    }

    /// The table's entries in ascending byte-wise order of the names.
    pub fn into_entries(self) -> (r: Vec<(String, T)>)
        ensures
            entries_view(r@) == self.listing(),
    {
        proof {
            assert(entries_view(self.entries@) =~= self.listing());
        }
        self.entries
    }

    /// The place of the first entry whose name does not come before `name`,
    /// and whether that entry carries `name` itself.
    fn locate(&self, name: &str) -> (r: (usize, bool))
        requires
            self.wf(),
        ensures
            r.0 <= self.listing().len(),
            forall|j: int| 0 <= j < r.0 ==> name_lt(#[trigger] self.listing()[j].0, name@),
            r.1 ==> r.0 < self.listing().len() && self.listing()[r.0 as int].0 == name@,
            !r.1 ==> forall|j: int|
                r.0 <= j < self.listing().len() ==> name_lt(name@, #[trigger] self.listing()[j].0),
            r.1 == self@.contains_key(name@),
    {
        let mut i: usize = 0;
        while i < self.entries.len()
            invariant
                self.wf(),
                i <= self.entries.len(),
                self.entries.len() == self.listing().len(),
                forall|j: int| 0 <= j < i ==> name_lt(#[trigger] self.listing()[j].0, name@),
            decreases self.entries.len() - i,
        {
            let r = rank(self.entries[i].0.as_str(), name);
            assert(self.listing()[i as int].0 == self.entries@[i as int].0@);
            match r {
                Rank::Before => {},
                Rank::Same => {
                    assert(listed(self.listing(), name@));
                    return (i, true);
                },
                Rank::After => {
                    proof {
                        let l = self.listing();
                        assert forall|j: int| i <= j < l.len() implies name_lt(
                            name@,
                            #[trigger] l[j].0,
                        ) by {
                            if j > i {
                                assert(name_lt(l[i as int].0, l[j].0));
                                lemma_name_lt_transitive(name@, l[i as int].0, l[j].0);
                            }
                        }
                        if listed(l, name@) {
                            let j = listing_index(l, name@);
                            lemma_name_lt_irreflexive(name@);
                        }
                    }
                    return (i, false);
                },
            }
            i += 1;
        }
        proof {
            let l = self.listing();
            if listed(l, name@) {
                let j = listing_index(l, name@);
                lemma_name_lt_irreflexive(name@);
            }
        }
        (i, false)
    }

    /// Whether the table holds `name`.
    pub fn contains(&self, name: &str) -> (r: bool)
        requires
            self.wf(),
        ensures
            r == self@.contains_key(name@),
    {
        self.locate(name).1
    }

    /// The value that the table holds under `name`, if any.
    pub fn get(&self, name: &str) -> (r: Option<&T>)
        requires
            self.wf(),
        ensures
            r is Some == self@.contains_key(name@),
            r is Some ==> *r->0 == self@[name@],
    {
        let (i, found) = self.locate(name);
        if found {
            proof {
                lemma_listing_entry(self.listing(), i as int);
            }
            Some(&self.entries[i].1)
        } else {
            None
        }
    }

    /// Binds `name` to `value`, replacing what the table held under that name.
    pub fn insert(&mut self, name: String, value: T)
        requires
            old(self).wf(),
        ensures
            final(self).wf(),
            final(self)@ == old(self)@.insert(name@, value),
    {
        let (i, found) = self.locate(name.as_str());
        let ghost before = self.listing();
        if found {
            self.entries.remove(i);
            self.entries.insert(i, (name, value));
            proof {
                lemma_listing_update(before, i as int, value);
                assert(self.listing() =~= before.update(i as int, (name@, value)));
            }
        } else {
            self.entries.insert(i, (name, value));
            proof {
                lemma_listing_insert(before, i as int, name@, value);
                assert(self.listing() =~= before.insert(i as int, (name@, value)));
            }
        }
    }
}

} // verus!
