//! Ordered collections of names.
//!
//! Names are kept in the order of their UTF-8 bytes, which is the order in which
//! strings compare. A [`NameMap`] holds one value for each of its names, a
//! [`NameSet`] holds names alone.
use vstd::prelude::*;
use vstd::utf8::{
    encode_scalar, encode_utf8, encode_utf8_decode_utf8, has_width_1_encoding, has_width_2_encoding,
    has_width_3_encoding, has_width_4_encoding, last_continuation_byte, leading_byte_width_1, leading_byte_width_2,
    leading_byte_width_3, leading_byte_width_4, second_last_continuation_byte, third_last_continuation_byte,
};

verus! {

/// `i` is the first place where `a` and `b` differ, and there `a` is the lesser.
pub open spec fn lesser_at(a: Seq<u8>, b: Seq<u8>, i: int) -> bool {
    &&& 0 <= i <= a.len()
    &&& i < b.len()
    &&& a.take(i) == b.take(i)
    &&& i < a.len() ==> a[i] < b[i]
}

/// Lexicographic order of bytes.
pub open spec fn bytes_precede(a: Seq<u8>, b: Seq<u8>) -> bool {
    exists|i: int| lesser_at(a, b, i)
}

/// `a` comes before `b` in the order of names.
pub open spec fn precedes(a: Seq<char>, b: Seq<char>) -> bool {
    bytes_precede(encode_utf8(a), encode_utf8(b))
}

/// Names in order, each of them once.
pub open spec fn ascending(names: Seq<Seq<char>>) -> bool {
    forall|i: int, j: int| 0 <= i < j < names.len() ==> precedes(#[trigger] names[i], #[trigger] names[j])
}

/// No name comes before itself.
pub proof fn law_order_irreflexive(a: Seq<char>)
    ensures
        !precedes(a, a),
{
}

/// The order of names is transitive.
pub proof fn law_order_transitive(a: Seq<char>, b: Seq<char>, c: Seq<char>)
    requires
        precedes(a, b),
        precedes(b, c),
    ensures
        precedes(a, c),
{
    let (x, y, z) = (encode_utf8(a), encode_utf8(b), encode_utf8(c));
    let i: int = choose|i: int| lesser_at(x, y, i);
    let j: int = choose|j: int| lesser_at(y, z, j);
    let k: int = if i <= j { i } else { j };
    assert(x.take(i).take(k) == x.take(k));
    assert(y.take(i).take(k) == y.take(k));
    assert(y.take(j).take(k) == y.take(k));
    assert(z.take(j).take(k) == z.take(k));
    if i < j {
        assert(y[i] == y.take(j)[i]);
        assert(z[i] == z.take(j)[i]);
    }
    if j < i {
        assert(x[j] == x.take(i)[j]);
        assert(y[j] == y.take(i)[j]);
    }
    assert(lesser_at(x, z, k));
}

/// Of two different names one comes before the other, and never both.
pub proof fn law_order_total(a: Seq<char>, b: Seq<char>)
    ensures
        a != b ==> (precedes(a, b) <==> !precedes(b, a)),
{
    if a != b {
        if precedes(a, b) && precedes(b, a) {
            law_order_transitive(a, b, a);
            law_order_irreflexive(a);
        }
        encode_utf8_decode_utf8(a);
        encode_utf8_decode_utf8(b);
        assert(encode_utf8(a).take(0) == encode_utf8(b).take(0));
        lemma_some_difference(encode_utf8(a), encode_utf8(b), 0);
    }
}

/// The bytes of joined texts are the joined bytes of the texts.
proof fn lemma_bytes_of_joined(a: Seq<char>, b: Seq<char>)
    ensures
        encode_utf8(a + b) == encode_utf8(a) + encode_utf8(b),
    decreases a.len(),
{
    if a.len() == 0 {
        assert(a + b =~= b);
        assert(encode_utf8(a) + encode_utf8(b) =~= encode_utf8(b));
    } else {
        assert((a + b).drop_first() =~= a.drop_first() + b);
        lemma_bytes_of_joined(a.drop_first(), b);
        assert(encode_utf8(a + b) =~= encode_utf8(a) + encode_utf8(b));
    }
}

/// The bytes of one character, by how many there are.
proof fn lemma_bytes_by_width(c: u32)
    by (bit_vector)
    requires
        c <= 0x10FFFF,
    ensures
        has_width_1_encoding(c) ==> leading_byte_width_1(c) == c,
        has_width_2_encoding(c) ==> leading_byte_width_2(c) == 0xC0 + c / 0x40,
        has_width_3_encoding(c) ==> leading_byte_width_3(c) == 0xE0 + c / 0x1000,
        has_width_4_encoding(c) ==> leading_byte_width_4(c) == 0xF0 + c / 0x4_0000,
        last_continuation_byte(c) == 0x80 + c % 0x40,
        second_last_continuation_byte(c) == 0x80 + (c / 0x40) % 0x40,
        third_last_continuation_byte(c) == 0x80 + (c / 0x1000) % 0x40,
{
}

/// A lower code point has lesser bytes, whatever follows.
proof fn lemma_bytes_of_lower(c: char, d: char, x: Seq<u8>, y: Seq<u8>) -> (i: int)
    requires
        (c as u32) < (d as u32),
    ensures
        lesser_at(encode_scalar(c as u32) + x, encode_scalar(d as u32) + y, i),
        i < encode_scalar(c as u32).len(),
{
    let u: u32 = c as u32;
    let v: u32 = d as u32;
    let a: Seq<u8> = encode_scalar(u) + x;
    let b: Seq<u8> = encode_scalar(v) + y;
    lemma_bytes_by_width(u);
    lemma_bytes_by_width(v);
    let same_width: bool = encode_scalar(u).len() == encode_scalar(v).len();
    let i: int = if !same_width || a[0] != b[0] {
        0
    } else if a[1] != b[1] {
        1
    } else if a[2] != b[2] {
        2
    } else {
        3
    };
    assert(a.take(0) =~= b.take(0));
    if i >= 1 {
        assert(a.take(1) =~= b.take(1));
    }
    if i >= 2 {
        assert(a.take(2) =~= b.take(2));
    }
    if i >= 3 {
        assert(a.take(3) =~= b.take(3));
    }
    i
}

/// Names are ordered by code points: where they first differ, the lower code point
/// comes first, and a name comes before what continues it.
pub proof fn law_order_is_by_code_points(common: Seq<char>, c: char, d: char, x: Seq<char>, y: Seq<char>)
    ensures
        (c as u32) < (d as u32) ==> precedes(common + (seq![c] + x), common + (seq![d] + y)),
        precedes(common, common + (seq![d] + y)),
{
    let start: Seq<u8> = encode_utf8(common);
    let n: int = start.len() as int;
    let p: Seq<u8> = encode_utf8(seq![c] + x);
    let q: Seq<u8> = encode_utf8(seq![d] + y);
    assert((seq![c] + x).drop_first() =~= x);
    assert((seq![d] + y).drop_first() =~= y);
    lemma_bytes_of_joined(common, seq![c] + x);
    lemma_bytes_of_joined(common, seq![d] + y);
    if (c as u32) < (d as u32) {
        let i: int = lemma_bytes_of_lower(c, d, encode_utf8(x), encode_utf8(y));
        assert(lesser_at(p, q, i));
        assert((start + p).take(n + i) =~= start + p.take(i));
        assert((start + q).take(n + i) =~= start + q.take(i));
        assert(lesser_at(start + p, start + q, n + i));
    }
    assert(start.take(n) =~= start);
    assert((start + q).take(n) =~= start);
    assert(lesser_at(start, start + q, n));
}

/// Different byte strings that agree up to `i` differ somewhere from `i` on.
proof fn lemma_some_difference(a: Seq<u8>, b: Seq<u8>, i: int)
    requires
        a != b,
        0 <= i <= a.len(),
        i <= b.len(),
        a.take(i) == b.take(i),
    ensures
        bytes_precede(a, b) || bytes_precede(b, a),
    decreases a.len() - i,
{
    if i == a.len() || i == b.len() {
        if i == a.len() && i == b.len() {
            assert(a == a.take(i));
            assert(b == b.take(i));
        }
        assert(lesser_at(a, b, i) || lesser_at(b, a, i));
    } else if a[i] == b[i] {
        assert(a.take(i + 1) == a.take(i).push(a[i]));
        assert(b.take(i + 1) == b.take(i).push(b[i]));
        lemma_some_difference(a, b, i + 1);
    } else {
        assert(lesser_at(a, b, i) || lesser_at(b, a, i));
    }
}

/// How one name stands to another in the order of names.
#[derive(Clone, Copy, Debug, PartialEq, Eq, Structural)]
pub enum NameOrder {
    Before,
    Same,
    After,
}

/// Compares two names.
pub fn compare_names(a: &str, b: &str) -> (order: NameOrder)
    ensures
        order == NameOrder::Before <==> precedes(a@, b@),
        order == NameOrder::Same <==> a@ == b@,
        order == NameOrder::After <==> precedes(b@, a@),
{
    let x: &[u8] = a.as_bytes();
    let y: &[u8] = b.as_bytes();
    let mut i: usize = 0;
    proof {
        law_order_total(a@, b@);
        law_order_irreflexive(a@);
        encode_utf8_decode_utf8(a@);
        encode_utf8_decode_utf8(b@);
    }
    assert(x@.take(0) == y@.take(0));
    while i < x.len() && i < y.len()
        invariant
            i <= x@.len(),
            i <= y@.len(),
            x@ == encode_utf8(a@),
            y@ == encode_utf8(b@),
            x@.take(i as int) == y@.take(i as int),
            a@ != b@ ==> (precedes(a@, b@) <==> !precedes(b@, a@)),
            !precedes(a@, a@),
        decreases x@.len() - i,
    {
        if x[i] < y[i] {
            assert(lesser_at(x@, y@, i as int));
            return NameOrder::Before;
        }
        if y[i] < x[i] {
            assert(lesser_at(y@, x@, i as int));
            return NameOrder::After;
        }
        assert(x@.take(i + 1) == x@.take(i as int).push(x@[i as int]));
        assert(y@.take(i + 1) == y@.take(i as int).push(y@[i as int]));
        i = i + 1;
    }
    if i < y.len() {
        assert(lesser_at(x@, y@, i as int));
        NameOrder::Before
    } else if i < x.len() {
        assert(lesser_at(y@, x@, i as int));
        NameOrder::After
    } else {
        assert(x@ == x@.take(i as int));
        assert(y@ == y@.take(i as int));
        NameOrder::Same
    }
}

/// Whether two names are the same.
pub fn same_name(a: &str, b: &str) -> (same: bool)
    ensures
        same == (a@ == b@),
{
    match compare_names(a, b) {
        NameOrder::Same => true,
        _ => false,
    }
}

/// A name and the value held for it.
pub struct Entry<V> {
    name: String,
    value: V,
}

/// A map from names, held in the order of its names.
pub struct NameMap<V> {
    entries: Vec<Entry<V>>,
}

impl<V> NameMap<V> {
    /// The names of the map, in the order in which they are held.
    pub closed spec fn names(self) -> Seq<Seq<char>> {
        self.entries@.map_values(|entry: Entry<V>| entry.name@)
    }

    /// The names are in order, each of them once.
    pub open spec fn wf(self) -> bool {
        ascending(self.names())
    }
}

impl<V> View for NameMap<V> {
    type V = Map<Seq<char>, V>;

    closed spec fn view(&self) -> Map<Seq<char>, V> {
        Map::new(
            |name: Seq<char>| self.names().contains(name),
            |name: Seq<char>| self.entries@[self.names().index_of(name)].value,
        )
    }
}

impl<V> NameMap<V> {
    /// What is held at one place is the value of the name at that place.
    proof fn lemma_at(self, i: int)
        requires
            self.wf(),
            0 <= i < self.entries@.len(),
        ensures
            self.names()[i] == self.entries@[i].name@,
            self@.contains_key(self.names()[i]),
            self@[self.names()[i]] == self.entries@[i].value,
    {
        let name: Seq<char> = self.names()[i];
        assert(self.names().contains(name));
        let j: int = self.names().index_of(name);
        assert(self.names()[j] == name);
        law_order_irreflexive(name);
        assert(i == j);
    }

    /// The names of the map are the domain of its view.
    pub proof fn lemma_names(self)
        requires
            self.wf(),
        ensures
            self.names().no_duplicates(),
            self.names().to_set() == self@.dom(),
            self.names().len() == self@.dom().len(),
            self@.dom().finite(),
    {
        assert forall|i: int, j: int| 0 <= i < j < self.names().len() implies self.names()[i] != self.names()[j] by {
            law_order_irreflexive(self.names()[i]);
        }
        self.names().unique_seq_to_set();
        assert(self.names().to_set() =~= self@.dom());
    }

    /// An empty map.
    pub fn new() -> (map: Self)
        ensures
            map.wf(),
            map@ == Map::<Seq<char>, V>::empty(),
    {
        let map: NameMap<V> = NameMap { entries: Vec::new() };
        assert(map@ =~= Map::<Seq<char>, V>::empty());
        map
    }

    /// How many names the map holds.
    pub fn len(&self) -> (len: usize)
        requires
            self.wf(),
        ensures
            len == self@.dom().len(),
            len == self.names().len(),
    {
        proof {
            self.lemma_names();
        }
        self.entries.len()
    }

    /// Where the map holds a name, or where the name would go.
    fn search(&self, name: &str) -> (place: (bool, usize))
        requires
            self.wf(),
        ensures
            place.1 <= self.entries@.len(),
            place.0 ==> place.1 < self.entries@.len() && self.names()[place.1 as int] == name@,
            place.0 == self@.contains_key(name@),
            forall|i: int| 0 <= i < place.1 ==> precedes(#[trigger] self.names()[i], name@),
            !place.0 ==> forall|i: int|
                place.1 <= i < self.entries@.len() ==> precedes(name@, #[trigger] self.names()[i]),
    {
        let mut low: usize = 0;
        let mut high: usize = self.entries.len();
        while low < high
            invariant
                self.wf(),
                low <= high <= self.entries@.len(),
                forall|i: int| 0 <= i < low ==> precedes(#[trigger] self.names()[i], name@),
                forall|i: int| high <= i < self.entries@.len() ==> precedes(name@, #[trigger] self.names()[i]),
            decreases high - low,
        {
            let middle: usize = low + (high - low) / 2;
            assert(self.names()[middle as int] == self.entries@[middle as int].name@);
            match compare_names(self.entries[middle].name.as_str(), name) {
                NameOrder::Before => {
                    proof {
                        assert forall|i: int| 0 <= i < middle + 1 implies precedes(#[trigger] self.names()[i], name@) by {
                            if i < middle {
                                law_order_transitive(self.names()[i], self.names()[middle as int], name@);
                            }
                        }
                    }
                    low = middle + 1;
                },
                NameOrder::After => {
                    proof {
                        assert forall|i: int| middle <= i < self.entries@.len() implies precedes(
                            name@,
                            #[trigger] self.names()[i],
                        ) by {
                            if i > middle {
                                law_order_transitive(name@, self.names()[middle as int], self.names()[i]);
                            }
                        }
                    }
                    high = middle;
                },
                NameOrder::Same => {
                    proof {
                        self.lemma_at(middle as int);
                    }
                    return (true, middle);
                },
            }
        }
        proof {
            if self@.contains_key(name@) {
                let i: int = self.names().index_of(name@);
                assert(self.names()[i] == name@);
                law_order_irreflexive(name@);
                assert(i < low || high <= i);
            }
        }
        (false, low)
    }

    /// The value held for a name.
    pub fn get(&self, name: &str) -> (value: Option<&V>)
        requires
            self.wf(),
        ensures
            value == (if self@.contains_key(name@) {
                Some(&self@[name@])
            } else {
                None
            }),
    {
        let (found, at): (bool, usize) = self.search(name);
        if found {
            proof {
                self.lemma_at(at as int);
            }
            Some(&self.entries[at].value)
        } else {
            None
        }
    }
}

/// Putting a name where it belongs keeps names in order.
proof fn lemma_ascending_insert(names: Seq<Seq<char>>, at: int, name: Seq<char>)
    requires
        ascending(names),
        0 <= at <= names.len(),
        forall|i: int| 0 <= i < at ==> precedes(#[trigger] names[i], name),
        forall|i: int| at <= i < names.len() ==> precedes(name, #[trigger] names[i]),
    ensures
        ascending(names.insert(at, name)),
{
    let inserted: Seq<Seq<char>> = names.insert(at, name);
    assert forall|i: int, j: int| 0 <= i < j < inserted.len() implies precedes(
        #[trigger] inserted[i],
        #[trigger] inserted[j],
    ) by {
        let old_i: int = if i < at { i } else { i - 1 };
        let old_j: int = if j < at { j } else { j - 1 };
        if i != at && j != at {
            assert(precedes(names[old_i], names[old_j]));
        } else if i == at {
            assert(precedes(name, names[old_j]));
        } else {
            assert(precedes(names[old_i], name));
        }
    }
}

impl<V> NameMap<V> {
    /// Holding a new name leaves the other names as they were.
    proof fn lemma_inserted(before: Self, after: Self, at: int, entry: Entry<V>)
        requires
            before.wf(),
            0 <= at <= before.entries@.len(),
            forall|i: int| 0 <= i < at ==> precedes(#[trigger] before.names()[i], entry.name@),
            forall|i: int| at <= i < before.entries@.len() ==> precedes(entry.name@, #[trigger] before.names()[i]),
            after.entries@ == before.entries@.insert(at, entry),
        ensures
            after.wf(),
            after.names() == before.names().insert(at, entry.name@),
            after@ == before@.insert(entry.name@, entry.value),
    {
        assert(after.names() =~= before.names().insert(at, entry.name@));
        lemma_ascending_insert(before.names(), at, entry.name@);
        after.lemma_at(at);
        let expected: Map<Seq<char>, V> = before@.insert(entry.name@, entry.value);
        assert forall|name: Seq<char>| #[trigger] after@.contains_key(name) implies expected.contains_key(name)
            && after@[name] == expected[name] by {
            let j: int = after.names().index_of(name);
            assert(after.names()[j] == name);
            after.lemma_at(j);
            if j != at {
                let i: int = if j < at { j } else { j - 1 };
                assert(before.names()[i] == name);
                before.lemma_at(i);
                law_order_irreflexive(name);
            }
        }
        assert forall|name: Seq<char>| #[trigger] expected.contains_key(name) implies after@.contains_key(name) by {
            if name != entry.name@ {
                let i: int = before.names().index_of(name);
                assert(before.names()[i] == name);
                let j: int = if i < at { i } else { i + 1 };
                assert(after.names()[j] == name);
            }
        }
        assert(after@.dom() =~= expected.dom());
        assert(after@ =~= expected);
    }

    /// Changing one value leaves the others as they were.
    proof fn lemma_updated(before: Self, after: Self, at: int, value: V)
        requires
            before.wf(),
            0 <= at < before.entries@.len(),
            after.entries@ == before.entries@.update(at, Entry { name: before.entries@[at].name, value }),
        ensures
            after.wf(),
            after.names() == before.names(),
            after@ == before@.insert(before.entries@[at].name@, value),
    {
        assert(after.names() =~= before.names());
        assert forall|name: Seq<char>| before@.contains_key(name) implies after@[name] == before@.insert(
            before.entries@[at].name@,
            value,
        )[name] by {
            let i: int = before.names().index_of(name);
            assert(before.names()[i] == name);
            before.lemma_at(i);
            after.lemma_at(i);
            before.lemma_at(at);
            law_order_irreflexive(name);
        }
        before.lemma_at(at);
        assert(after@ =~= before@.insert(before.entries@[at].name@, value));
    }

    /// The place that holds the value of a name; where the name is new, `fresh`
    /// is put there first.
    pub fn slot(&mut self, name: &str, fresh: V) -> (value: &mut V)
        requires
            old(self).wf(),
        ensures
            *value == (if old(self)@.contains_key(name@) {
                old(self)@[name@]
            } else {
                fresh
            }),
            final(self).wf(),
            final(self)@ == old(self)@.insert(name@, *final(value)),
    {
        let (found, at): (bool, usize) = self.search(name);
        let ghost before: NameMap<V> = *self;
        if !found {
            let entry: Entry<V> = Entry { name: name.to_owned(), value: fresh };
            self.entries.insert(at, entry);
            proof {
                NameMap::lemma_inserted(before, *self, at as int, entry);
            }
        }
        let ghost middle: NameMap<V> = *self;
        proof {
            middle.lemma_at(at as int);
        }
        proof {
            assert forall|after: NameMap<V>|
                #![trigger after.entries@]
                after.entries@ == middle.entries@.update(
                    at as int,
                    Entry { name: middle.entries@[at as int].name, value: after.entries@[at as int].value },
                ) implies after.wf() && after@ == before@.insert(name@, after.entries@[at as int].value) by {
                let value: V = after.entries@[at as int].value;
                NameMap::lemma_updated(middle, after, at as int, value);
                assert(middle@.insert(name@, value) =~= before@.insert(name@, value));
            }
        }
        &mut self.entries[at].value
    }
}

/// The names of a finite set, in order.
pub open spec fn in_order(names: Set<Seq<char>>) -> Seq<Seq<char>> {
    choose|ordered: Seq<Seq<char>>| ascending(ordered) && #[trigger] ordered.to_set() == names
}

/// Names can be put in order in one way only.
pub proof fn law_one_order(a: Seq<Seq<char>>, b: Seq<Seq<char>>)
    requires
        ascending(a),
        ascending(b),
        a.to_set() == b.to_set(),
    ensures
        a == b,
    decreases a.len(),
{
    if a.len() == 0 {
        if b.len() > 0 {
            assert(b.to_set().contains(b[0]));
            assert(a.contains(b[0]));
        }
        assert(a =~= b);
    } else {
        assert(a.to_set().contains(a[0]));
        assert(b.contains(a[0]));
        let x: Seq<char> = a.last();
        let y: Seq<char> = b.last();
        assert(a.to_set().contains(x));
        assert(b.to_set().contains(y));
        let i: int = choose|i: int| 0 <= i < a.len() && a[i] == y;
        let j: int = choose|j: int| 0 <= j < b.len() && b[j] == x;
        if x != y {
            assert(precedes(y, x));
            assert(precedes(x, y));
            law_order_total(x, y);
        }
        lemma_drop_last(a);
        lemma_drop_last(b);
        law_one_order(a.drop_last(), b.drop_last());
        assert(a =~= a.drop_last().push(x));
        assert(b =~= b.drop_last().push(x));
    }
}

/// Without its last name an ascending sequence holds all other names.
proof fn lemma_drop_last(names: Seq<Seq<char>>)
    requires
        ascending(names),
        names.len() > 0,
    ensures
        ascending(names.drop_last()),
        names.drop_last().to_set() == names.to_set().remove(names.last()),
{
    let rest: Seq<Seq<char>> = names.drop_last();
    assert forall|name: Seq<char>| rest.to_set().contains(name) <==> names.to_set().remove(names.last()).contains(name) by {
        if rest.contains(name) {
            let i: int = rest.index_of(name);
            assert(names[i] == name);
            law_order_irreflexive(name);
        }
        if names.contains(name) && name != names.last() {
            let i: int = names.index_of(name);
            assert(rest[i] == name);
        }
    }
    assert(rest.to_set() =~= names.to_set().remove(names.last()));
}

/// An ascending sequence is the order of its own names.
pub proof fn lemma_in_order(names: Seq<Seq<char>>)
    requires
        ascending(names),
    ensures
        in_order(names.to_set()) == names,
{
    law_one_order(in_order(names.to_set()), names);
}

/// A name that is not among names in order has a place among them.
proof fn lemma_place(names: Seq<Seq<char>>, name: Seq<char>) -> (at: int)
    requires
        ascending(names),
        !names.contains(name),
    ensures
        0 <= at <= names.len(),
        forall|i: int| 0 <= i < at ==> precedes(#[trigger] names[i], name),
        forall|i: int| at <= i < names.len() ==> precedes(name, #[trigger] names[i]),
    decreases names.len(),
{
    if names.len() == 0 {
        0
    } else {
        let last: Seq<char> = names.last();
        assert(names[names.len() - 1] == last);
        law_order_total(last, name);
        if precedes(last, name) {
            assert forall|i: int| 0 <= i < names.len() implies precedes(#[trigger] names[i], name) by {
                if i < names.len() - 1 {
                    law_order_transitive(names[i], last, name);
                }
            }
            names.len() as int
        } else {
            let rest: Seq<Seq<char>> = names.drop_last();
            assert forall|i: int| 0 <= i < rest.len() implies rest[i] != name by {
                assert(names[i] == rest[i]);
            }
            let at: int = lemma_place(rest, name);
            assert(forall|i: int| 0 <= i < rest.len() ==> rest[i] == #[trigger] names[i]);
            at
        }
    }
}

/// The names of every finite set can be put in order.
pub proof fn law_order_exists(names: Set<Seq<char>>)
    requires
        names.finite(),
    ensures
        ascending(in_order(names)),
        in_order(names).to_set() == names,
    decreases names.len(),
{
    if names.len() == 0 {
        assert(names =~= Set::<Seq<char>>::empty());
        assert(Seq::<Seq<char>>::empty().to_set() =~= names);
        assert(ascending(Seq::<Seq<char>>::empty()));
    } else {
        let name: Seq<char> = names.choose();
        let rest: Set<Seq<char>> = names.remove(name);
        law_order_exists(rest);
        let ordered: Seq<Seq<char>> = in_order(rest);
        assert(!ordered.contains(name)) by {
            if ordered.contains(name) {
                assert(ordered.to_set().contains(name));
            }
        }
        let at: int = lemma_place(ordered, name);
        let more: Seq<Seq<char>> = ordered.insert(at, name);
        lemma_ascending_insert(ordered, at, name);
        assert forall|other: Seq<char>| more.to_set().contains(other) <==> names.contains(other) by {
            if more.contains(other) && other != name {
                let i: int = more.index_of(other);
                let j: int = if i < at { i } else { i - 1 };
                assert(ordered[j] == other);
                assert(ordered.to_set().contains(other));
            }
            if names.contains(other) {
                if other == name {
                    assert(more[at] == name);
                } else {
                    assert(ordered.to_set().contains(other));
                    let i: int = ordered.index_of(other);
                    let j: int = if i < at { i } else { i + 1 };
                    assert(more[j] == other);
                }
            }
        }
        assert(more.to_set() =~= names);
    }
}

/// A set of names, held in order.
pub struct NameSet {
    members: NameMap<()>,
}

impl View for NameSet {
    type V = Set<Seq<char>>;

    closed spec fn view(&self) -> Set<Seq<char>> {
        self.members@.dom()
    }
}

impl NameSet {
    pub closed spec fn wf(self) -> bool {
        self.members.wf()
    }

    /// The names of the set, in the order in which they are held.
    pub closed spec fn names(self) -> Seq<Seq<char>> {
        self.members.names()
    }

    /// The names are held in order.
    pub proof fn lemma_names(self)
        requires
            self.wf(),
        ensures
            self.names() == in_order(self@),
            self.names().to_set() == self@,
            self@.finite(),
    {
        self.members.lemma_names();
        lemma_in_order(self.names());
    }

    /// An empty set.
    pub fn new() -> (set: NameSet)
        ensures
            set.wf(),
            set@ == Set::<Seq<char>>::empty(),
    {
        let set: NameSet = NameSet { members: NameMap::new() };
        assert(set@ =~= Set::<Seq<char>>::empty());
        set
    }

    /// How many names the set holds.
    pub fn len(&self) -> (len: usize)
        requires
            self.wf(),
        ensures
            len == self@.len(),
            len == self.names().len(),
    {
        self.members.len()
    }

    /// The name at one place of the order.
    pub fn name_at(&self, i: usize) -> (name: &str)
        requires
            self.wf(),
            i < self.names().len(),
        ensures
            name@ == self.names()[i as int],
    {
        self.members.entries[i].name.as_str()
    }

    /// Adds a name; one that is there already stays as it is.
    pub fn insert(&mut self, name: &str)
        requires
            old(self).wf(),
        ensures
            final(self).wf(),
            final(self)@ == old(self)@.insert(name@),
    {
        let _ = self.members.slot(name, ());
        assert(self@ =~= old(self)@.insert(name@));
    }

    /// Adds all names of another set.
    pub fn absorb(&mut self, other: &NameSet)
        requires
            old(self).wf(),
            other.wf(),
        ensures
            final(self).wf(),
            final(self)@ == old(self)@.union(other@),
    {
        proof {
            other.lemma_names();
        }
        let mut i: usize = 0;
        assert(self@ =~= self@.union(other.names().take(0).to_set()));
        while i < other.len()
            invariant
                self.wf(),
                other.wf(),
                i <= other.names().len(),
                self@ == old(self)@.union(other.names().take(i as int).to_set()),
            decreases other.names().len() - i,
        {
            self.insert(other.name_at(i));
            proof {
                let names: Seq<Seq<char>> = other.names();
                assert(names.take(i + 1) =~= names.take(i as int).push(names[i as int]));
                names.take(i as int).lemma_push_to_set_commute(names[i as int]);
                assert(self@ =~= old(self)@.union(names.take(i + 1).to_set()));
            }
            i = i + 1;
        }
        assert(other.names().take(i as int) =~= other.names());
    }
}

} // verus!
