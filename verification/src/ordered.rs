//! Sets and maps keyed by text, held in the order of the keys.
use vstd::prelude::*;

use crate::text;

verus! {

/// The strict order of texts: character by character, and a prefix before what extends it.
pub open spec fn precedes(a: Seq<char>, b: Seq<char>) -> bool
    decreases a.len(),
{
    if b.len() == 0 {
        false
    } else if a.len() == 0 {
        true
    } else if a.first() != b.first() {
        a.first() < b.first()
    } else {
        precedes(a.drop_first(), b.drop_first())
    }
}

/// No text precedes itself.
pub proof fn lemma_precedes_irreflexive(a: Seq<char>)
    ensures
        !precedes(a, a),
    decreases a.len(),
{
    if a.len() > 0 {
        lemma_precedes_irreflexive(a.drop_first());
    }
}

/// What precedes a text precedes all that the text precedes.
pub proof fn lemma_precedes_transitive(a: Seq<char>, b: Seq<char>, c: Seq<char>)
    requires
        precedes(a, b),
        precedes(b, c),
    ensures
        precedes(a, c),
    decreases a.len(),
{
    if a.len() > 0 && b.len() > 0 && c.len() > 0 && a.first() == b.first() && b.first()
        == c.first() {
        lemma_precedes_transitive(a.drop_first(), b.drop_first(), c.drop_first());
    }
}

/// Of two different texts one precedes the other.
pub proof fn lemma_precedes_total(a: Seq<char>, b: Seq<char>)
    requires
        a != b,
    ensures
        precedes(a, b) || precedes(b, a),
    decreases a.len(),
{
    if a.len() == 0 || b.len() == 0 {
        if a.len() == b.len() {
            assert(a == b);
        }
    } else if a.first() == b.first() {
        if a.drop_first() == b.drop_first() {
            assert(a == seq![a.first()] + a.drop_first());
            assert(b == seq![b.first()] + b.drop_first());
        }
        lemma_precedes_total(a.drop_first(), b.drop_first());
    }
}

/// Whether `a` comes before `b`.
pub fn comes_before(a: &str, b: &str) -> (r: bool)
    ensures
        r == precedes(a@, b@),
{
    let x = text::chars_of(a);
    let y = text::chars_of(b);
    let mut i: usize = 0;
    assert(a@.skip(0) == a@);
    assert(b@.skip(0) == b@);
    while i < x.len() && i < y.len() && x[i] == y[i]
        invariant
            i <= x@.len(),
            i <= y@.len(),
            x@ == a@,
            y@ == b@,
            precedes(a@, b@) == precedes(a@.skip(i as int), b@.skip(i as int)),
        decreases x@.len() - i,
    {
        assert(a@.skip(i as int).drop_first() == a@.skip(i + 1));
        assert(b@.skip(i as int).drop_first() == b@.skip(i + 1));
        i = i + 1;
    }
    if i == y.len() {
        false
    } else if i == x.len() {
        true
    } else {
        x[i] < y[i]
    }
}

/// Whether texts stand in strictly ascending order, so that none occurs twice.
pub open spec fn ascending(keys: Seq<Seq<char>>) -> bool {
    forall|i: int, j: int|
        0 <= i < j < keys.len() ==> precedes(#[trigger] keys[i], #[trigger] keys[j])
}

/// Where a text stands among ascending texts, or where it would have to be put.
pub struct Slot {
    pub taken: bool,
    pub index: usize,
}

impl Slot {
    /// The slot of `key` among `keys`.
    pub open spec fn is_of(self, keys: Seq<Seq<char>>, key: Seq<char>) -> bool {
        &&& self.index <= keys.len()
        &&& forall|j: int| 0 <= j < self.index ==> precedes(#[trigger] keys[j], key)
        &&& self.taken ==> self.index < keys.len() && keys[self.index as int] == key
        &&& !self.taken && self.index < keys.len() ==> precedes(key, keys[self.index as int])
    }
}

/// Finds the slot of `key` among ascending `keys`.
pub fn find_slot(keys: &Vec<String>, key: &str) -> (r: Slot)
    requires
        ascending(keys.deep_view()),
    ensures
        r.is_of(keys.deep_view(), key@),
        r.taken == keys.deep_view().contains(key@),
{
    let ghost all = keys.deep_view();
    let mut i: usize = 0;
    while i < keys.len() && comes_before(keys[i].as_str(), key)
        invariant
            i <= keys@.len(),
            all == keys.deep_view(),
            forall|j: int| 0 <= j < i ==> precedes(#[trigger] all[j], key@),
        decreases keys@.len() - i,
    {
        i = i + 1;
    }
    let taken = i < keys.len() && text::same(keys[i].as_str(), key);
    proof {
        if i < all.len() && !taken {
            lemma_precedes_total(all[i as int], key@);
        }
        if taken {
            assert(all[i as int] == key@);
        } else if all.contains(key@) {
            let j = choose|j: int| 0 <= j < all.len() && all[j] == key@;
            lemma_precedes_irreflexive(key@);
            if i < j {
                lemma_precedes_transitive(key@, all[i as int], all[j]);
            }
        }
    }
    Slot { taken, index: i }
}

/// Putting a new text into its slot keeps the order.
pub proof fn lemma_insert_ascending(keys: Seq<Seq<char>>, slot: Slot, key: Seq<char>)
    requires
        ascending(keys),
        slot.is_of(keys, key),
        !slot.taken,
    ensures
        ascending(keys.insert(slot.index as int, key)),
        keys.insert(slot.index as int, key).to_set() == keys.to_set().insert(key),
{
    let at = slot.index as int;
    let grown = keys.insert(at, key);
    assert forall|i: int, j: int| 0 <= i < j < grown.len() implies precedes(
        #[trigger] grown[i],
        #[trigger] grown[j],
    ) by {
        if i == at {
            if j > at + 1 {
                assert(grown[j] == keys[j - 1]);
                lemma_precedes_transitive(key, keys[at], keys[j - 1]);
            }
        } else if i < at {
            assert(grown[i] == keys[i]);
            if j < at {
                assert(grown[j] == keys[j]);
            } else if j > at {
                assert(grown[j] == keys[j - 1]);
            }
        } else {
            assert(grown[i] == keys[i - 1]);
            assert(grown[j] == keys[j - 1]);
        }
    }
    assert forall|k: Seq<char>| grown.to_set().contains(k) <==> keys.to_set().insert(key).contains(
        k,
    ) by {
        if keys.contains(k) {
            let j = choose|j: int| 0 <= j < keys.len() && keys[j] == k;
            assert(grown[if j < at { j } else { j + 1 }] == k);
        }
        if grown.contains(k) && k != key {
            let j = choose|j: int| 0 <= j < grown.len() && grown[j] == k;
            assert(keys[if j < at { j } else { j - 1 }] == k);
        }
        assert(grown[at] == key);
    }
    assert(grown.to_set() =~= keys.to_set().insert(key));
}

/// Adds a text to ascending texts, unless it is there already.
pub fn insert_text(keys: &mut Vec<String>, key: String)
    requires
        ascending(old(keys).deep_view()),
    ensures
        ascending(final(keys).deep_view()),
        final(keys).deep_view().to_set() == old(keys).deep_view().to_set().insert(key@),
{
    let ghost before = keys.deep_view();
    let slot = find_slot(keys, key.as_str());
    if slot.taken {
        assert(before.to_set().insert(key@) =~= before.to_set());
    } else {
        keys.insert(slot.index, key);
        assert(keys.deep_view() == before.insert(slot.index as int, key@));
        proof {
            lemma_insert_ascending(before, slot, key@);
        }
    }
}

/// Ascending texts are settled by the set of them: there is one way only to list a set.
pub proof fn lemma_ascending_unique(a: Seq<Seq<char>>, b: Seq<Seq<char>>)
    requires
        ascending(a),
        ascending(b),
        a.to_set() == b.to_set(),
    ensures
        a == b,
    decreases a.len(),
{
    if a.len() == 0 {
        if b.len() > 0 {
            assert(b.to_set().contains(b[0]));
            assert(a.contains(b[0]));
        }
        assert(a == b);
    } else {
        assert(a.to_set().contains(a.last()));
        assert(b.contains(a.last()));
        assert(b.to_set().contains(b.last()));
        assert(a.contains(b.last()));
        let i = choose|i: int| 0 <= i < b.len() && b[i] == a.last();
        let j = choose|j: int| 0 <= j < a.len() && a[j] == b.last();
        if a.last() != b.last() {
            assert(precedes(b[i], b.last()));
            assert(precedes(a[j], a.last()));
            lemma_precedes_transitive(a.last(), b.last(), a.last());
            lemma_precedes_irreflexive(a.last());
        }
        let x = a.drop_last();
        let y = b.drop_last();
        assert forall|k: Seq<char>| x.to_set().contains(k) <==> y.to_set().contains(k) by {
            if x.contains(k) {
                let m = choose|m: int| 0 <= m < x.len() && x[m] == k;
                assert(a[m] == k);
                assert(a.to_set().contains(k));
                assert(b.contains(k));
                let n = choose|n: int| 0 <= n < b.len() && b[n] == k;
                lemma_precedes_irreflexive(k);
                assert(precedes(a[m], a.last()));
                assert(n < y.len());
                assert(y[n] == k);
            }
            if y.contains(k) {
                let m = choose|m: int| 0 <= m < y.len() && y[m] == k;
                assert(b[m] == k);
                assert(b.to_set().contains(k));
                assert(a.contains(k));
                let n = choose|n: int| 0 <= n < a.len() && a[n] == k;
                lemma_precedes_irreflexive(k);
                assert(precedes(b[m], b.last()));
                assert(n < x.len());
                assert(x[n] == k);
            }
        }
        assert(x.to_set() =~= y.to_set());
        lemma_ascending_unique(x, y);
        assert(a == x.push(a.last()));
        assert(b == y.push(b.last()));
    }
}

/// The one way to list a set of texts in ascending order.
pub open spec fn listed(texts: Set<Seq<char>>) -> Seq<Seq<char>> {
    choose|keys: Seq<Seq<char>>| ascending(keys) && #[trigger] keys.to_set() == texts
}

/// Ascending texts are the list of their set.
pub proof fn lemma_listed(keys: Seq<Seq<char>>)
    requires
        ascending(keys),
    ensures
        listed(keys.to_set()) == keys,
{
    lemma_ascending_unique(listed(keys.to_set()), keys);
}

/// Where a text has to be put among ascending texts.
pub open spec fn slot_among(keys: Seq<Seq<char>>, key: Seq<char>) -> int
    decreases keys.len(),
{
    if keys.len() > 0 && precedes(keys.first(), key) {
        1 + slot_among(keys.drop_first(), key)
    } else {
        0
    }
}

proof fn lemma_slot_among(keys: Seq<Seq<char>>, key: Seq<char>)
    requires
        ascending(keys),
        !keys.contains(key),
    ensures
        0 <= slot_among(keys, key) <= keys.len(),
        ascending(keys.insert(slot_among(keys, key), key)),
        forall|j: int| 0 <= j < slot_among(keys, key) ==> precedes(#[trigger] keys[j], key),
        forall|j: int| slot_among(keys, key) <= j < keys.len() ==> precedes(key, #[trigger] keys[j]),
    decreases keys.len(),
{
    let at = slot_among(keys, key);
    if keys.len() > 0 {
        assert(keys.first() == keys[0]);
        lemma_precedes_total(keys.first(), key);
        let rest = keys.drop_first();
        if precedes(keys.first(), key) {
            assert(ascending(rest)) by {
                assert forall|i: int, j: int| 0 <= i < j < rest.len() implies precedes(
                    #[trigger] rest[i],
                    #[trigger] rest[j],
                ) by {
                    assert(rest[i] == keys[i + 1]);
                    assert(rest[j] == keys[j + 1]);
                }
            }
            assert(!rest.contains(key)) by {
                if rest.contains(key) {
                    let j = choose|j: int| 0 <= j < rest.len() && rest[j] == key;
                    assert(keys[j + 1] == key);
                }
            }
            lemma_slot_among(rest, key);
            assert forall|j: int| 0 <= j < at implies precedes(#[trigger] keys[j], key) by {
                if j > 0 {
                    assert(rest[j - 1] == keys[j]);
                }
            }
            assert forall|j: int| at <= j < keys.len() implies precedes(key, #[trigger] keys[j]) by {
                assert(rest[j - 1] == keys[j]);
            }
        } else {
            assert forall|j: int| at <= j < keys.len() implies precedes(key, #[trigger] keys[j]) by {
                if j > 0 {
                    lemma_precedes_transitive(key, keys[0], keys[j]);
                }
            }
        }
    }
    let grown = keys.insert(at, key);
    assert forall|i: int, j: int| 0 <= i < j < grown.len() implies precedes(
        #[trigger] grown[i],
        #[trigger] grown[j],
    ) by {
        if i < at {
            assert(grown[i] == keys[i]);
        } else if i > at {
            assert(grown[i] == keys[i - 1]);
        }
        if j < at {
            assert(grown[j] == keys[j]);
        } else if j > at {
            assert(grown[j] == keys[j - 1]);
        }
    }
}

/// The list of a finite set is ascending and holds the set, nothing more and nothing less.
pub proof fn lemma_listed_exactly(texts: Set<Seq<char>>)
    requires
        texts.finite(),
    ensures
        ascending(listed(texts)),
        listed(texts).to_set() == texts,
    decreases texts.len(),
{
    if texts.len() == 0 {
        let none = Seq::<Seq<char>>::empty();
        assert(texts =~= none.to_set());
        assert(ascending(none) && none.to_set() == texts);
    } else {
        let key = texts.choose();
        let fewer = texts.remove(key);
        lemma_listed_exactly(fewer);
        let keys = listed(fewer);
        assert(!keys.contains(key)) by {
            if keys.contains(key) {
                assert(keys.to_set().contains(key));
            }
        }
        lemma_slot_among(keys, key);
        let at = slot_among(keys, key);
        let grown = keys.insert(at, key);
        assert forall|k: Seq<char>| grown.to_set().contains(k) <==> texts.contains(k) by {
            if texts.contains(k) && k != key {
                assert(keys.to_set().contains(k));
                let j = choose|j: int| 0 <= j < keys.len() && keys[j] == k;
                assert(grown[if j < at { j } else { j + 1 }] == k);
            }
            if grown.contains(k) && k != key {
                let j = choose|j: int| 0 <= j < grown.len() && grown[j] == k;
                assert(keys[if j < at { j } else { j - 1 }] == k);
                assert(keys.to_set().contains(k));
            }
            assert(grown[at] == key);
        }
        assert(grown.to_set() =~= texts);
        assert(ascending(grown) && grown.to_set() == texts);
    }
}

/// A map from texts to values, held in ascending order of the keys.
pub struct TextMap<V> {
    pub keys: Vec<String>,
    pub values: Vec<V>,
}

impl<V> TextMap<V> {
    pub open spec fn wf(self) -> bool {
        &&& self.keys@.len() == self.values@.len()
        &&& ascending(self.keys.deep_view())
    }

    /// Where `key` stands among the keys.
    pub open spec fn index_of(self, key: Seq<char>) -> int {
        choose|i: int| 0 <= i < self.keys@.len() && self.keys@[i]@ == key
    }

    /// The map with no entry.
    pub fn new() -> (r: Self)
        ensures
            r.wf(),
            r@ == Map::<Seq<char>, V>::empty(),
    {
        let r = TextMap { keys: Vec::new(), values: Vec::new() };
        assert(r@ =~= Map::<Seq<char>, V>::empty());
        r
    }

    /// Sets the value of `key`, in place of the one it may have had.
    pub fn insert(&mut self, key: String, value: V)
        requires
            old(self).wf(),
        ensures
            final(self).wf(),
            final(self)@ == old(self)@.insert(key@, value),
    {
        let ghost was = *self;
        let ghost before = self.keys.deep_view();
        let ghost k = key@;
        let slot = find_slot(&self.keys, key.as_str());
        let at: usize = slot.index;
        if slot.taken {
            self.values.set(at, value);
            assert(self.keys@ == was.keys@);
            proof {
                lemma_entry(*self, at as int);
                assert forall|j: int| 0 <= j < was.keys@.len() && j != at implies #[trigger] was.keys@[j]@
                    != k by {
                    lemma_precedes_irreflexive(k);
                    assert(before[j] == was.keys@[j]@);
                    assert(before[at as int] == k);
                }
            }
        } else {
            self.keys.insert(at, key);
            self.values.insert(at, value);
            assert(self.keys.deep_view() == before.insert(at as int, k));
            proof {
                lemma_insert_ascending(before, slot, k);
                lemma_entry(*self, at as int);
                assert forall|j: int| 0 <= j < was.keys@.len() implies #[trigger] was.keys@[j]@
                    != k by {
                    assert(before[j] == was.keys@[j]@);
                }
            }
        }
        proof {
            let now = *self;
            assert forall|x: Seq<char>| now@.contains_key(x) <==> was@.insert(k, value).contains_key(
                x,
            ) by {
                if was@.contains_key(x) {
                    let j = was.index_of(x);
                    if slot.taken || j < at {
                        assert(now.keys@[j]@ == x);
                    } else {
                        assert(now.keys@[j + 1]@ == x);
                    }
                }
                if now@.contains_key(x) && x != k {
                    let j = now.index_of(x);
                    if slot.taken || j < at {
                        assert(was.keys@[j]@ == x);
                    } else {
                        assert(was.keys@[j - 1]@ == x);
                    }
                }
                assert(now.keys@[at as int]@ == k);
            }
            assert forall|x: Seq<char>| now@.contains_key(x) implies #[trigger] now@[x]
                == was@.insert(k, value)[x] by {
                if x != k {
                    let j = was.index_of(x);
                    assert(was@.contains_key(x));
                    lemma_entry(was, j);
                    let m = if slot.taken || j < at {
                        j
                    } else {
                        j + 1
                    };
                    assert(now.keys@[m]@ == x);
                    lemma_entry(now, m);
                }
            }
            assert(now@ =~= was@.insert(k, value));
        }
    }
}

impl<V: DeepView> TextMap<V> {
    /// The keys with their values, in the order of the keys.
    pub open spec fn entries(self) -> Seq<(Seq<char>, V::V)> {
        Seq::new(self.keys@.len(), |i: int| (self.keys@[i]@, self.values@[i].deep_view()))
    }
}

impl<V> View for TextMap<V> {
    type V = Map<Seq<char>, V>;

    open spec fn view(&self) -> Map<Seq<char>, V> {
        Map::new(
            |k: Seq<char>| exists|i: int| 0 <= i < self.keys@.len() && #[trigger] self.keys@[i]@ == k,
            |k: Seq<char>| self.values@[self.index_of(k)],
        )
    }
}

/// A map with no key has no entry.
pub proof fn lemma_empty_map<V: DeepView>(m: TextMap<V>)
    requires
        m@ == Map::<Seq<char>, V>::empty(),
    ensures
        m.entries() == Seq::<(Seq<char>, V::V)>::empty(),
{
    if m.keys@.len() > 0 {
        assert(m@.contains_key(m.keys@[0]@));
    }
    assert(m.entries() == Seq::<(Seq<char>, V::V)>::empty());
}

/// Each entry of a well-formed map stands in its view.
pub proof fn lemma_entry<V>(m: TextMap<V>, i: int)
    requires
        m.wf(),
        0 <= i < m.keys@.len(),
    ensures
        m@.contains_key(m.keys@[i]@),
        m@[m.keys@[i]@] == m.values@[i],
{
    let k = m.keys@[i]@;
    let j = m.index_of(k);
    assert(m.keys@[i]@ == k);
    let keys = m.keys.deep_view();
    assert(keys[i] == k && keys[j] == k);
    lemma_precedes_irreflexive(k);
}

/// Which of two texts comes first is settled at the first place where they differ: by the lesser
/// character, or by the end of the shorter text.
pub proof fn lemma_precedes_exactly(a: Seq<char>, b: Seq<char>, i: int)
    requires
        0 <= i <= a.len(),
        i <= b.len(),
        a.take(i) == b.take(i),
    ensures
        i == a.len() && i < b.len() ==> precedes(a, b) && !precedes(b, a),
        i < a.len() && i < b.len() && a[i] < b[i] ==> precedes(a, b) && !precedes(b, a),
        i == a.len() && i == b.len() ==> !precedes(a, b),
    decreases i,
{
    if i > 0 {
        let x = a.drop_first();
        let y = b.drop_first();
        assert(a.take(i)[0] == a[0]);
        assert(b.take(i)[0] == b[0]);
        assert(a.first() == b.first());
        assert(x.take(i - 1) == y.take(i - 1)) by {
            assert(a.take(i).drop_first() == x.take(i - 1));
            assert(b.take(i).drop_first() == y.take(i - 1));
        }
        lemma_precedes_exactly(x, y, i - 1);
    }
}

/// Whether `from` lists, in ascending order, just the places below `n` that are to be kept.
pub open spec fn picks(from: Seq<int>, n: int, keep: spec_fn(int) -> bool) -> bool {
    &&& forall|j: int, k: int| 0 <= j < k < from.len() ==> #[trigger] from[j] < #[trigger] from[k]
    &&& forall|j: int| 0 <= j < from.len() ==> 0 <= #[trigger] from[j] < n && keep(from[j])
    &&& forall|i: int| 0 <= i < n && #[trigger] keep(i) ==> from.contains(i)
}

/// One place more is picked if it is to be kept.
pub proof fn lemma_picks_next(from: Seq<int>, n: int, keep: spec_fn(int) -> bool)
    requires
        0 <= n,
        picks(from, n, keep),
    ensures
        keep(n) ==> picks(from.push(n), n + 1, keep),
        !keep(n) ==> picks(from, n + 1, keep),
{
    let more = from.push(n);
    if keep(n) {
        assert forall|i: int| 0 <= i < n + 1 && #[trigger] keep(i) implies more.contains(i) by {
            if i < n {
                let j = choose|j: int| 0 <= j < from.len() && from[j] == i;
                assert(more[j] == i);
            } else {
                assert(more[from.len() as int] == n);
            }
        }
        assert forall|j: int| 0 <= j < more.len() implies 0 <= #[trigger] more[j] < n + 1 && keep(
            more[j],
        ) by {
            if j < from.len() {
                assert(more[j] == from[j]);
            }
        }
        assert forall|j: int, k: int| 0 <= j < k < more.len() implies #[trigger] more[j]
            < #[trigger] more[k] by {
            assert(more[j] == from[j]);
            if k < from.len() {
                assert(more[k] == from[k]);
            }
        }
    } else {
        assert forall|i: int| 0 <= i < n + 1 && #[trigger] keep(i) implies from.contains(i) by {}
    }
}

/// The places that are picked do not depend on what is said of other places.
pub proof fn lemma_picks_same(
    from: Seq<int>,
    n: int,
    keep: spec_fn(int) -> bool,
    other: spec_fn(int) -> bool,
)
    requires
        picks(from, n, keep),
        forall|i: int| 0 <= i < n ==> #[trigger] keep(i) == other(i),
    ensures
        picks(from, n, other),
{
    assert forall|i: int| 0 <= i < n && #[trigger] other(i) implies from.contains(i) by {
        assert(keep(i));
    }
    assert forall|j: int| 0 <= j < from.len() implies 0 <= #[trigger] from[j] < n && other(
        from[j],
    ) by {
        assert(keep(from[j]));
    }
}

} // verus!
