//! Tables keyed by a name, held in the order of the names.
use vstd::prelude::*;
use vstd::string::*;
use vstd::utf8::*;

verus! {

/// `a` comes before `b` in the order of dictionaries, byte by byte.
pub open spec fn bytes_before(a: Seq<u8>, b: Seq<u8>) -> bool
    decreases a.len(),
{
    if b.len() == 0 {
        false
    } else if a.len() == 0 {
        true
    } else {
        a[0] < b[0] || (a[0] == b[0] && bytes_before(a.drop_first(), b.drop_first()))
    }
}

/// The order of names: by the bytes of their UTF-8 form, as `str` is ordered.
pub open spec fn name_before(a: Seq<char>, b: Seq<char>) -> bool {
    bytes_before(encode_utf8(a), encode_utf8(b))
}

proof fn lemma_bytes_irreflexive(a: Seq<u8>)
    ensures
        !bytes_before(a, a),
    decreases a.len(),
{
    if a.len() > 0 {
        lemma_bytes_irreflexive(a.drop_first());
    }
}

proof fn lemma_bytes_transitive(a: Seq<u8>, b: Seq<u8>, c: Seq<u8>)
    requires
        bytes_before(a, b),
        bytes_before(b, c),
    ensures
        bytes_before(a, c),
    decreases a.len(),
{
    if a.len() > 0 && a[0] == b[0] && b[0] == c[0] {
        lemma_bytes_transitive(a.drop_first(), b.drop_first(), c.drop_first());
    }
}

proof fn lemma_bytes_total(a: Seq<u8>, b: Seq<u8>)
    ensures
        a == b || bytes_before(a, b) || bytes_before(b, a),
    decreases a.len(),
{
    if a.len() == 0 || b.len() == 0 {
        if a.len() == b.len() {
            assert(a =~= b);
        }
    } else if a[0] == b[0] {
        lemma_bytes_total(a.drop_first(), b.drop_first());
        if a.drop_first() == b.drop_first() {
            assert(a =~= seq![a[0]] + a.drop_first());
            assert(b =~= seq![b[0]] + b.drop_first());
        }
    }
}

/// The order of names is strict and total.
pub proof fn law_names_are_ordered(a: Seq<char>, b: Seq<char>, c: Seq<char>)
    ensures
        !name_before(a, a),
        name_before(a, b) && name_before(b, c) ==> name_before(a, c),
        a == b || name_before(a, b) || name_before(b, a),
{
    lemma_bytes_irreflexive(encode_utf8(a));
    if name_before(a, b) && name_before(b, c) {
        lemma_bytes_transitive(encode_utf8(a), encode_utf8(b), encode_utf8(c));
    }
    lemma_bytes_total(encode_utf8(a), encode_utf8(b));
    encode_utf8_decode_utf8(a);
    encode_utf8_decode_utf8(b);
}

proof fn lemma_after_the_same(p: Seq<u8>, a: Seq<u8>, b: Seq<u8>)
    ensures
        bytes_before(p + a, p + b) == bytes_before(a, b),
    decreases p.len(),
{
    if p.len() == 0 {
        assert(p + a =~= a);
        assert(p + b =~= b);
    } else {
        let q = p.drop_first();
        lemma_after_the_same(q, a, b);
        assert((p + a).drop_first() =~= q + a);
        assert((p + b).drop_first() =~= q + b);
    }
}

/// The first byte in which two runs of bytes differ decides their order, and the
/// lower comes first; a beginning comes before the whole.
pub proof fn law_the_first_difference_decides(
    p: Seq<u8>,
    x: u8,
    a: Seq<u8>,
    y: u8,
    b: Seq<u8>,
)
    ensures
        x != y ==> (bytes_before(p + seq![x] + a, p + seq![y] + b) <==> x < y),
        bytes_before(p, p + seq![x] + a),
        !bytes_before(p + seq![x] + a, p),
{
    assert(p + seq![x] + a =~= p + (seq![x] + a));
    assert(p + seq![y] + b =~= p + (seq![y] + b));
    lemma_after_the_same(p, seq![x] + a, seq![y] + b);
    let none = Seq::<u8>::empty();
    assert(p + none =~= p);
    lemma_after_the_same(p, none, seq![x] + a);
    lemma_after_the_same(p, seq![x] + a, none);
}

/// Of names in ASCII, the first character in which two differ decides their
/// order, and the lower comes first; a beginning comes before the whole.
pub proof fn law_ascii_names_go_by_characters(
    p: Seq<char>,
    x: char,
    a: Seq<char>,
    y: char,
    b: Seq<char>,
)
    requires
        is_ascii_chars(p + seq![x] + a),
        is_ascii_chars(p + seq![y] + b),
    ensures
        x != y ==> (name_before(p + seq![x] + a, p + seq![y] + b) <==> x < y),
        name_before(p, p + seq![x] + a),
        !name_before(p + seq![x] + a, p),
{
    let s = p + seq![x] + a;
    let t = p + seq![y] + b;
    is_ascii_chars_encode_utf8(s);
    is_ascii_chars_encode_utf8(t);
    assert(is_ascii_chars(p)) by {
        assert forall|i: int| 0 <= i < p.len() implies '\0' <= #[trigger] p[i] <= '\u{7f}' by {
            assert(s[i] == p[i]);
        }
    }
    is_ascii_chars_encode_utf8(p);
    let n = p.len() as int;
    let q = encode_utf8(p);
    let u = encode_utf8(s);
    let v = encode_utf8(t);
    assert(s[n] == x && t[n] == y);
    assert(u =~= q + seq![u[n]] + u.skip(n + 1)) by {
        assert forall|i: int| 0 <= i < n implies u[i] == q[i] by {
            assert(s[i] == p[i]);
        }
    }
    assert(v =~= q + seq![v[n]] + v.skip(n + 1)) by {
        assert forall|i: int| 0 <= i < n implies v[i] == q[i] by {
            assert(t[i] == p[i]);
        }
    }
    law_the_first_difference_decides(q, u[n], u.skip(n + 1), v[n], v.skip(n + 1));
}

/// How two names stand to each other.
#[derive(Clone, Copy, PartialEq, Eq, Structural)]
pub enum Standing {
    Before,
    Same,
    After,
}

/// How `a` stands to `b` in the order of names.
pub fn compare_names(a: &str, b: &str) -> (r: Standing)
    ensures
        match r {
            Standing::Before => name_before(a@, b@),
            Standing::Same => a@ == b@,
            Standing::After => name_before(b@, a@),
        },
{
    let x = a.as_bytes();
    let y = b.as_bytes();
    let mut i: usize = 0;
    proof {
        encode_utf8_decode_utf8(a@);
        encode_utf8_decode_utf8(b@);
        assert(x@.skip(0) =~= x@);
        assert(y@.skip(0) =~= y@);
    }
    while i < x.len() && i < y.len()
        invariant
            x@ == encode_utf8(a@),
            y@ == encode_utf8(b@),
            i <= x@.len(),
            i <= y@.len(),
            x@.take(i as int) == y@.take(i as int),
            name_before(a@, b@) == bytes_before(x@.skip(i as int), y@.skip(i as int)),
            name_before(b@, a@) == bytes_before(y@.skip(i as int), x@.skip(i as int)),
        decreases x@.len() - i,
    {
        let ghost p = x@.skip(i as int);
        let ghost q = y@.skip(i as int);
        if x[i] < y[i] {
            assert(p[0] < q[0]);
            return Standing::Before;
        }
        if x[i] > y[i] {
            assert(q[0] < p[0]);
            return Standing::After;
        }
        proof {
            assert(p[0] == q[0]);
            assert(p.drop_first() =~= x@.skip(i + 1));
            assert(q.drop_first() =~= y@.skip(i + 1));
            assert(x@.take(i + 1) =~= x@.take(i as int).push(x@[i as int]));
            assert(y@.take(i + 1) =~= y@.take(i as int).push(y@[i as int]));
        }
        i += 1;
    }
    if i < y.len() {
        Standing::Before
    } else if i < x.len() {
        Standing::After
    } else {
        assert(x@.take(i as int) =~= x@);
        assert(y@.take(i as int) =~= y@);
        Standing::Same
    }
}

/// Names that follow each other in the order of names, none twice.
pub open spec fn ascending(names: Seq<Seq<char>>) -> bool {
    forall|i: int, j: int| 0 <= i < j < names.len() ==> name_before(names[i], names[j])
}

/// The table that gives each name the value at its place.
pub open spec fn zipped<T>(names: Seq<Seq<char>>, values: Seq<T>) -> Map<Seq<char>, T> {
    Map::new(|k: Seq<char>| names.contains(k), |k: Seq<char>| values[names.index_of(k)])
}

/// `names` are the names of a table, in their order.
pub open spec fn lists_names<T>(names: Seq<Seq<char>>, table: Map<Seq<char>, T>) -> bool {
    &&& ascending(names)
    &&& forall|k: Seq<char>| #[trigger] names.contains(k) <==> table.contains_key(k)
}

/// What a table holds for a name, or `other` where it holds nothing.
pub open spec fn at_or<T>(m: Map<Seq<char>, T>, k: Seq<char>, other: T) -> T {
    if m.contains_key(k) {
        m[k]
    } else {
        other
    }
}

proof fn lemma_ascending_index(names: Seq<Seq<char>>, i: int)
    requires
        ascending(names),
        0 <= i < names.len(),
    ensures
        names.contains(names[i]),
        names.index_of(names[i]) == i,
{
    let j = names.index_of(names[i]);
    assert(names.contains(names[i]));
    assert(0 <= j < names.len() && names[j] == names[i]);
    law_names_are_ordered(names[i], names[i], names[i]);
    if j < i {
        assert(name_before(names[j], names[i]));
    } else if i < j {
        assert(name_before(names[i], names[j]));
    }
}

proof fn lemma_zipped_update<T>(names: Seq<Seq<char>>, values: Seq<T>, i: int, v: T)
    requires
        ascending(names),
        names.len() == values.len(),
        0 <= i < names.len(),
    ensures
        zipped(names, values).contains_key(names[i]),
        zipped(names, values)[names[i]] == values[i],
        zipped(names, values.update(i, v)) == zipped(names, values).insert(names[i], v),
{
    lemma_ascending_index(names, i);
    let a = zipped(names, values.update(i, v));
    let b = zipped(names, values).insert(names[i], v);
    assert forall|k: Seq<char>| #[trigger] a.contains_key(k) implies a[k] == b[k] by {
        let j = names.index_of(k);
        assert(names[j] == k);
    }
    assert(a =~= b);
}

proof fn lemma_zipped_insert<T>(
    names: Seq<Seq<char>>,
    values: Seq<T>,
    i: int,
    key: Seq<char>,
    v: T,
)
    requires
        ascending(names),
        names.len() == values.len(),
        0 <= i <= names.len(),
        forall|j: int| 0 <= j < i ==> name_before(#[trigger] names[j], key),
        forall|j: int| i <= j < names.len() ==> name_before(key, #[trigger] names[j]),
    ensures
        !zipped(names, values).contains_key(key),
        ascending(names.insert(i, key)),
        zipped(names.insert(i, key), values.insert(i, v)) == zipped(names, values).insert(key, v),
{
    law_names_are_ordered(key, key, key);
    if names.contains(key) {
        let j = names.index_of(key);
        assert(names[j] == key);
    }
    let after = names.insert(i, key);
    assert(ascending(after)) by {
        assert forall|p: int, q: int| 0 <= p < q < after.len() implies name_before(
            after[p],
            after[q],
        ) by {
            let p0 = if p < i {
                p
            } else {
                p - 1
            };
            let q0 = if q < i {
                q
            } else {
                q - 1
            };
            if p == i {
                assert(after[q] == names[q0]);
            } else if q == i {
                assert(after[p] == names[p0]);
            } else {
                assert(after[p] == names[p0] && after[q] == names[q0]);
            }
        }
    }
    let a = zipped(after, values.insert(i, v));
    let b = zipped(names, values).insert(key, v);
    assert forall|k: Seq<char>| a.contains_key(k) == b.contains_key(k) by {
        if names.contains(k) {
            let j = names.index_of(k);
            assert(after[if j < i {
                j
            } else {
                j + 1
            }] == k);
        }
        if after.contains(k) && k != key {
            let j = after.index_of(k);
            assert(names[if j < i {
                j
            } else {
                j - 1
            }] == k);
        }
        assert(after[i] == key);
    }
    assert forall|k: Seq<char>| #[trigger] a.contains_key(k) implies a[k] == b[k] by {
        let j = after.index_of(k);
        assert(after[j] == k);
        if k == key {
            lemma_ascending_index(after, i);
        } else {
            let m = names.index_of(k);
            assert(names[m] == k);
            let n = if m < i {
                m
            } else {
                m + 1
            };
            assert(after[n] == k);
            lemma_ascending_index(after, n);
        }
    }
    assert(a =~= b);
}

/// What a table can hold: values with a view, some of them sound.
pub trait Item: View {
    spec fn sound(&self) -> bool;
}

/// A table from names to values.
pub struct NameMap<T> {
    entries: Vec<(String, T)>,
}

impl<T: Item> NameMap<T> {
    /// The names in the table, in their order.
    pub closed spec fn names(self) -> Seq<Seq<char>> {
        Seq::new(self.entries@.len(), |i: int| self.entries@[i].0@)
    }

    /// The values in the table, in the order of their names.
    pub closed spec fn values(self) -> Seq<T::V> {
        Seq::new(self.entries@.len(), |i: int| self.entries@[i].1@)
    }

    /// Every value is sound.
    pub closed spec fn all_sound(self) -> bool {
        forall|i: int| 0 <= i < self.entries@.len() ==> (#[trigger] self.entries@[i]).1.sound()
    }

    /// Names are in their order, each has a value, and all values are sound.
    pub open spec fn wf(self) -> bool {
        &&& self.names().len() == self.values().len()
        &&& ascending(self.names())
        &&& self.all_sound()
    }
}

impl<T: Item> View for NameMap<T> {
    type V = Map<Seq<char>, T::V>;

    open spec fn view(&self) -> Map<Seq<char>, T::V> {
        zipped(self.names(), self.values())
    }
}

impl<T: Item> Item for NameMap<T> {
    open spec fn sound(&self) -> bool {
        self.wf()
    }
}

/// What a well-formed table holds is the view of a sound value.
pub proof fn lemma_values_are_sound<T: Item>(m: NameMap<T>, k: Seq<char>)
    requires
        m.wf(),
        m@.contains_key(k),
    ensures
        exists|v: T| #[trigger] v.sound() && v@ == m@[k],
{
    let i = m.names().index_of(k);
    assert(m.names()[i] == k);
    assert(m.entries@[i].1.sound());
}

impl<T: Item> NameMap<T> {
    /// The table with no names.
    pub fn new() -> (r: Self)
        ensures
            r.wf(),
            r.names() == Seq::<Seq<char>>::empty(),
            r@ == Map::<Seq<char>, T::V>::empty(),
    {
        let r = NameMap { entries: Vec::new() };
        assert(r@ =~= Map::<Seq<char>, T::V>::empty());
        r
    }

    /// The number of names.
    pub fn len(&self) -> (n: usize)
        ensures
            n == self.names().len(),
    {
        self.entries.len()
    }

    /// The name at a place.
    pub fn name_at(&self, i: usize) -> (r: &str)
        requires
            i < self.names().len(),
        ensures
            r@ == self.names()[i as int],
    {
        self.entries[i].0.as_str()
    }

    /// The value at a place.
    pub fn value_at(&self, i: usize) -> (r: &T)
        requires
            self.wf(),
            i < self.names().len(),
        ensures
            r@ == self.values()[i as int],
            r@ == self@[self.names()[i as int]],
            self@.contains_key(self.names()[i as int]),
            r.sound(),
    {
        proof {
            lemma_ascending_index(self.names(), i as int);
        }
        assert(self.entries@[i as int].1.sound());
        &self.entries[i].1
    }

    /// The place of a name, or the place where it belongs.
    fn place(&self, key: &str) -> (r: (bool, usize))
        requires
            ascending(self.names()),
        ensures
            r.1 <= self.names().len(),
            r.0 ==> r.1 < self.names().len() && self.names()[r.1 as int] == key@,
            !r.0 ==> (forall|i: int|
                0 <= i < r.1 ==> name_before(#[trigger] self.names()[i], key@)) && (forall|i: int|
                r.1 <= i < self.names().len() ==> name_before(key@, #[trigger] self.names()[i])),
    {
        let mut low: usize = 0;
        let mut high: usize = self.entries.len();
        while low < high
            invariant
                ascending(self.names()),
                low <= high <= self.names().len(),
                self.names().len() == self.entries@.len(),
                forall|i: int| 0 <= i < low ==> name_before(#[trigger] self.names()[i], key@),
                forall|i: int|
                    high <= i < self.names().len() ==> name_before(
                        key@,
                        #[trigger] self.names()[i],
                    ),
            decreases high - low,
        {
            let mid: usize = low + (high - low) / 2;
            let ghost m = self.names()[mid as int];
            match compare_names(self.entries[mid].0.as_str(), key) {
                Standing::Same => {
                    return (true, mid);
                },
                Standing::Before => {
                    assert forall|i: int| 0 <= i < mid + 1 implies name_before(
                        #[trigger] self.names()[i],
                        key@,
                    ) by {
                        if i < mid {
                            law_names_are_ordered(self.names()[i], m, key@);
                        }
                    }
                    low = mid + 1;
                },
                Standing::After => {
                    assert forall|i: int| mid <= i < self.names().len() implies name_before(
                        key@,
                        #[trigger] self.names()[i],
                    ) by {
                        if mid < i {
                            law_names_are_ordered(key@, m, self.names()[i]);
                        }
                    }
                    high = mid;
                },
            }
        }
        (false, low)
    }

    /// What the table holds for a name.
    pub fn get(&self, key: &str) -> (r: Option<&T>)
        requires
            self.wf(),
        ensures
            match r {
                Some(v) => self@.contains_key(key@) && v@ == self@[key@] && v.sound(),
                None => !self@.contains_key(key@),
            },
    {
        let (found, i) = self.place(key);
        if found {
            Some(self.value_at(i))
        } else {
            proof {
                if self.names().contains(key@) {
                    let j = self.names().index_of(key@);
                    law_names_are_ordered(key@, key@, key@);
                }
            }
            None
        }
    }

    /// The value of a name for change, which is put in with `first` where the
    /// name has none.
    pub fn entry(&mut self, key: &str, first: T) -> (r: &mut T)
        requires
            old(self).wf(),
            first.sound(),
        ensures
            r@ == at_or(old(self)@, key@, first@),
            r.sound(),
            final(r).sound() ==> final(self).wf(),
            final(self)@ == old(self)@.insert(key@, final(r)@),
    {
        let ghost names = self.names();
        let ghost values = self.values();
        let (found, i) = self.place(key);
        if found {
            let ghost last = *final(self);
            let r = &mut self.entries[i].1;
            proof {
                lemma_zipped_update(names, values, i as int, final(r)@);
                assert(last.names() =~= names);
                assert(last.values() =~= values.update(i as int, final(r)@));
            }
            r
        } else {
            let ghost v = first@;
            self.entries.insert(i, (key.to_owned(), first));
            let ghost grown = *self;
            let ghost last = *final(self);
            let r = &mut self.entries[i].1;
            proof {
                assert(grown.names() =~= names.insert(i as int, key@));
                assert(grown.values() =~= values.insert(i as int, v));
                lemma_zipped_insert(names, values, i as int, key@, final(r)@);
                assert(last.names() =~= names.insert(i as int, key@));
                assert(last.values() =~= values.insert(i as int, final(r)@));
            }
            r
        }
    }
}

/// The names of a table, in their order.
pub fn names_of<T: Item>(table: &NameMap<T>) -> (r: Vec<String>)
    requires
        table.wf(),
    ensures
        Seq::new(r@.len(), |i: int| r@[i]@) == table.names(),
        lists_names(Seq::new(r@.len(), |i: int| r@[i]@), table@),
{
    let mut names: Vec<String> = Vec::new();
    let n: usize = table.len();
    for i in 0..n
        invariant
            n == table.names().len(),
            names@.len() == i,
            forall|j: int| 0 <= j < i ==> #[trigger] names@[j]@ == table.names()[j],
    {
        names.push(table.name_at(i).to_owned());
    }
    assert(Seq::new(names@.len(), |i: int| names@[i]@) =~= table.names());
    names
}

} // verus!
