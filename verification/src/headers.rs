//! The headers of armored text: keys with values, in the order of the keys.
use vstd::prelude::*;
use vstd::utf8::{encode_utf8, encode_utf8_valid_utf8, valid_utf8};

verus! {

/// Whether `a` comes before `b` in the dictionary.
pub open spec fn precedes(a: Seq<u8>, b: Seq<u8>) -> bool
    decreases a.len(),
{
    if b.len() == 0 {
        false
    } else if a.len() == 0 {
        true
    } else if a[0] == b[0] {
        precedes(a.skip(1), b.skip(1))
    } else {
        a[0] < b[0]
    }
}

proof fn lemma_precedes_is_strict(a: Seq<u8>, b: Seq<u8>)
    ensures
        a == b ==> !precedes(a, b),
        a != b ==> precedes(a, b) || precedes(b, a),
    decreases a.len(),
{
    if a.len() > 0 && b.len() > 0 && a[0] == b[0] {
        lemma_precedes_is_strict(a.skip(1), b.skip(1));
        if a.skip(1) == b.skip(1) {
            assert(a =~= seq![a[0]] + a.skip(1));
            assert(b =~= seq![b[0]] + b.skip(1));
        }
    } else if a.len() == 0 && b.len() == 0 {
        assert(a =~= b);
    }
}

proof fn lemma_precedes_is_transitive(a: Seq<u8>, b: Seq<u8>, c: Seq<u8>)
    requires
        precedes(a, b),
        precedes(b, c),
    ensures
        precedes(a, c),
    decreases a.len(),
{
    if a.len() > 0 && b.len() > 0 && c.len() > 0 && a[0] == b[0] && b[0] == c[0] {
        lemma_precedes_is_transitive(a.skip(1), b.skip(1), c.skip(1));
    }
}

/// A key and its value, as octets of UTF-8.
pub type HeaderModel = (Seq<u8>, Seq<u8>);

/// The value of the first entry with a key.
pub open spec fn lookup(entries: Seq<HeaderModel>, key: Seq<u8>) -> Option<Seq<u8>>
    decreases entries.len(),
{
    if entries.len() == 0 {
        None
    } else if entries[0].0 == key {
        Some(entries[0].1)
    } else {
        lookup(entries.skip(1), key)
    }
}

proof fn lemma_lookup_concat(a: Seq<HeaderModel>, b: Seq<HeaderModel>, key: Seq<u8>)
    ensures
        lookup(a + b, key) == (if lookup(a, key) is Some {
            lookup(a, key)
        } else {
            lookup(b, key)
        }),
    decreases a.len(),
{
    if a.len() == 0 {
        assert(a + b =~= b);
    } else {
        lemma_lookup_concat(a.skip(1), b, key);
        assert((a + b).skip(1) =~= a.skip(1) + b);
    }
}

proof fn lemma_lookup_absent(a: Seq<HeaderModel>, key: Seq<u8>)
    requires
        forall|i: int| 0 <= i < a.len() ==> (#[trigger] a[i]).0 != key,
    ensures
        lookup(a, key) is None,
    decreases a.len(),
{
    if a.len() > 0 {
        let tail = a.skip(1);
        assert forall|i: int| 0 <= i < tail.len() implies (#[trigger] tail[i]).0 != key by {
            assert(tail[i] == a[i + 1]);
        }
        lemma_lookup_absent(tail, key);
    }
}

/// Headers: each key at most once, in the order of the keys.
pub struct Headers {
    entries: Vec<(String, String)>,
}

spec fn models(entries: Seq<(String, String)>) -> Seq<HeaderModel> {
    entries.map_values(|e: (String, String)| (encode_utf8(e.0@), encode_utf8(e.1@)))
}

impl View for Headers {
    type V = Seq<HeaderModel>;

    closed spec fn view(&self) -> Seq<HeaderModel> {
        models(self.entries@)
    }
}

/// Whether the keys stand in their order, each at most once.
pub open spec fn in_order(entries: Seq<HeaderModel>) -> bool {
    forall|i: int, j: int|
        0 <= i < j < entries.len() ==> precedes(
            (#[trigger] entries[i]).0,
            (#[trigger] entries[j]).0,
        )
}

/// The value that was last given to a key.
pub open spec fn last_value(entries: Seq<HeaderModel>, key: Seq<u8>) -> Option<Seq<u8>>
    decreases entries.len(),
{
    if entries.len() == 0 {
        None
    } else if entries.last().0 == key {
        Some(entries.last().1)
    } else {
        last_value(entries.drop_last(), key)
    }
}

/// Whether `headers` are what setting `entries` one after the other gives.
pub open spec fn collected(headers: Seq<HeaderModel>, entries: Seq<HeaderModel>) -> bool {
    &&& in_order(headers)
    &&& forall|k: Seq<u8>| #[trigger] lookup(headers, k) == last_value(entries, k)
}

proof fn lemma_lookup_present(a: Seq<HeaderModel>, i: int)
    requires
        in_order(a),
        0 <= i < a.len(),
    ensures
        lookup(a, a[i].0) == Some(a[i].1),
    decreases a.len(),
{
    if i > 0 {
        let tail = a.skip(1);
        assert(precedes(a[0].0, a[i].0));
        lemma_precedes_is_strict(a[0].0, a[i].0);
        lemma_tail_in_order(a);
        assert(tail[i - 1] == a[i]);
        lemma_lookup_present(tail, i - 1);
    }
}

proof fn lemma_tail_in_order(a: Seq<HeaderModel>)
    requires
        in_order(a),
        a.len() > 0,
    ensures
        in_order(a.skip(1)),
        lookup(a.skip(1), a[0].0) is None,
{
    let tail = a.skip(1);
    assert forall|i: int, j: int| 0 <= i < j < tail.len() implies precedes(
        (#[trigger] tail[i]).0,
        (#[trigger] tail[j]).0,
    ) by {
        assert(tail[i] == a[i + 1] && tail[j] == a[j + 1]);
    }
    assert forall|i: int| 0 <= i < tail.len() implies (#[trigger] tail[i]).0 != a[0].0 by {
        assert(tail[i] == a[i + 1]);
        lemma_precedes_is_strict(a[0].0, a[i + 1].0);
    }
    lemma_lookup_absent(tail, a[0].0);
}

/// A key that has a value is at or after the first key.
proof fn lemma_lookup_not_before(a: Seq<HeaderModel>, key: Seq<u8>)
    requires
        in_order(a),
        lookup(a, key) is Some,
    ensures
        a.len() > 0,
        a[0].0 == key || precedes(a[0].0, key),
    decreases a.len(),
{
    if a[0].0 != key {
        let tail = a.skip(1);
        lemma_tail_in_order(a);
        lemma_lookup_not_before(tail, key);
        assert(tail[0] == a[1]);
        assert(precedes(a[0].0, a[1].0));
        if tail[0].0 != key {
            lemma_precedes_is_transitive(a[0].0, a[1].0, key);
        }
    }
}

/// Headers are told apart by their values: two that give every key the same value are
/// the same.
pub proof fn law_headers_are_their_values(a: Seq<HeaderModel>, b: Seq<HeaderModel>)
    requires
        in_order(a),
        in_order(b),
        forall|k: Seq<u8>| #[trigger] lookup(a, k) == lookup(b, k),
    ensures
        a == b,
    decreases a.len(),
{
    if a.len() == 0 {
        if b.len() > 0 {
            lemma_lookup_present(b, 0);
            assert(lookup(a, b[0].0) is None);
        }
        assert(a =~= b);
    } else {
        lemma_lookup_present(a, 0);
        assert(lookup(b, a[0].0) is Some);
        lemma_lookup_not_before(b, a[0].0);
        lemma_lookup_present(b, 0);
        assert(lookup(a, b[0].0) is Some);
        lemma_lookup_not_before(a, b[0].0);
        if a[0].0 != b[0].0 {
            lemma_precedes_is_transitive(a[0].0, b[0].0, a[0].0);
            lemma_precedes_is_strict(a[0].0, a[0].0);
        }
        lemma_tail_in_order(a);
        lemma_tail_in_order(b);
        assert forall|k: Seq<u8>| #[trigger]
            lookup(a.skip(1), k) == lookup(b.skip(1), k) by {
            assert(lookup(a, k) == lookup(b, k));
        }
        law_headers_are_their_values(a.skip(1), b.skip(1));
        assert(a =~= seq![a[0]] + a.skip(1));
        assert(b =~= seq![b[0]] + b.skip(1));
    }
}

/// Headers in their order, set one after the other, are those headers.
pub proof fn law_ordered_entries_are_the_headers(
    headers: Seq<HeaderModel>,
    entries: Seq<HeaderModel>,
)
    requires
        in_order(entries),
        collected(headers, entries),
    ensures
        headers == entries,
{
    assert forall|k: Seq<u8>| #[trigger] lookup(headers, k) == lookup(entries, k) by {
        lemma_last_is_only(entries, k);
    }
    law_headers_are_their_values(headers, entries);
}

proof fn lemma_last_is_only(entries: Seq<HeaderModel>, key: Seq<u8>)
    requires
        in_order(entries),
    ensures
        last_value(entries, key) == lookup(entries, key),
    decreases entries.len(),
{
    if entries.len() > 0 {
        let front = entries.drop_last();
        assert forall|i: int, j: int| 0 <= i < j < front.len() implies precedes(
            (#[trigger] front[i]).0,
            (#[trigger] front[j]).0,
        ) by {
            assert(front[i] == entries[i] && front[j] == entries[j]);
        }
        lemma_last_is_only(front, key);
        assert(entries =~= front + seq![entries.last()]);
        lemma_lookup_concat(front, seq![entries.last()], key);
        assert(seq![entries.last()].skip(1) =~= Seq::empty());
        assert(lookup(seq![entries.last()].skip(1), key) is None);
        if entries.last().0 == key {
            lemma_lookup_present(entries, entries.len() - 1);
        }
    }
}

fn comes_before(a: &[u8], b: &[u8]) -> (r: bool)
    ensures
        r == precedes(a@, b@),
{
    let mut i: usize = 0;
    assert(a@.skip(0) =~= a@);
    assert(b@.skip(0) =~= b@);
    while i < a.len() && i < b.len()
        invariant
            i <= a@.len(),
            i <= b@.len(),
            precedes(a@.skip(i as int), b@.skip(i as int)) == precedes(a@, b@),
        decreases a@.len() - i,
    {
        assert(a@.skip(i as int).skip(1) =~= a@.skip(i + 1));
        assert(b@.skip(i as int).skip(1) =~= b@.skip(i + 1));
        if a[i] != b[i] {
            return a[i] < b[i];
        }
        i = i + 1;
    }
    i < b.len()
}

impl Headers {
    #[verifier::type_invariant]
    spec fn ordered(self) -> bool {
        in_order(self@)
    }

    /// No headers.
    pub fn new() -> (headers: Self)
        ensures
            headers@ == Seq::<HeaderModel>::empty(),
            in_order(headers@),
    {
        let headers = Headers { entries: Vec::new() };
        assert(headers@ =~= Seq::empty());
        headers
    }

    /// The keys and the values are text.
    pub proof fn lemma_is_text(&self)
        ensures
            forall|i: int|
                0 <= i < self@.len() ==> valid_utf8((#[trigger] self@[i]).0) && valid_utf8(
                    self@[i].1,
                ),
    {
        assert forall|i: int| 0 <= i < self@.len() implies valid_utf8((#[trigger] self@[i]).0)
            && valid_utf8(self@[i].1) by {
            encode_utf8_valid_utf8(self.entries@[i].0@);
            encode_utf8_valid_utf8(self.entries@[i].1@);
        }
    }

    /// How many headers there are.
    pub fn len(&self) -> (n: usize)
        ensures
            n == self@.len(),
    {
        self.entries.len()
    }

    /// The key and the value of a header.
    pub fn entry(&self, i: usize) -> (e: (&str, &str))
        requires
            i < self@.len(),
        ensures
            encode_utf8(e.0@) == self@[i as int].0,
            encode_utf8(e.1@) == self@[i as int].1,
    {
        (self.entries[i].0.as_str(), self.entries[i].1.as_str())
    }

    /// Sets a header: a value that the key had before is replaced, all other headers
    /// stay.
    pub fn insert(&mut self, key: String, value: String)
        ensures
            in_order(final(self)@),
            forall|k: Seq<u8>|
                #[trigger] lookup(final(self)@, k) == (if k == encode_utf8(key@) {
                    Some(encode_utf8(value@))
                } else {
                    lookup(old(self)@, k)
                }),
    {
        proof {
            use_type_invariant(&*self);
        }
        let mut entries: Vec<(String, String)> = Vec::new();
        std::mem::swap(&mut entries, &mut self.entries);
        put(&mut entries, key, value);
        self.entries = entries;
    }
}

/// Puts an entry in its place.
fn put(entries: &mut Vec<(String, String)>, key: String, value: String)
    requires
        in_order(models(old(entries)@)),
    ensures
        in_order(models(final(entries)@)),
        forall|k: Seq<u8>|
            #[trigger] lookup(models(final(entries)@), k) == (if k == encode_utf8(key@) {
                Some(encode_utf8(value@))
            } else {
                lookup(models(old(entries)@), k)
            }),
{
    let ghost before = models(entries@);
    let ghost k = encode_utf8(key@);
    let ghost v = encode_utf8(value@);
    let mut i: usize = 0;
    while i < entries.len() && comes_before(
        entries[i].0.as_str().as_bytes(),
        key.as_str().as_bytes(),
    )
        invariant
            models(entries@) == before,
            k == encode_utf8(key@),
            i <= before.len(),
            forall|j: int| 0 <= j < i ==> precedes((#[trigger] before[j]).0, k),
        decreases before.len() - i,
    {
        assert(before[i as int].0 == encode_utf8(entries@[i as int].0@));
        i = i + 1;
    }
    let replace = i < entries.len() && !comes_before(
        key.as_str().as_bytes(),
        entries[i].0.as_str().as_bytes(),
    );
    let ghost head = before.take(i as int);
    let ghost tail = if replace {
        before.skip(i + 1)
    } else {
        before.skip(i as int)
    };
    if replace {
        entries.remove(i);
    }
    entries.insert(i, (key, value));
    proof {
        if i < before.len() {
            lemma_precedes_is_strict(before[i as int].0, k);
        }
        assert(models(entries@) =~= head + (seq![(k, v)] + tail));
        assert forall|a: int, b: int| 0 <= a < b < models(entries@).len() implies precedes(
            (#[trigger] models(entries@)[a]).0,
            (#[trigger] models(entries@)[b]).0,
        ) by {
            if b > i {
                let bb = if replace {
                    b
                } else {
                    b - 1
                };
                assert(models(entries@)[b] == before[bb]);
                if i < bb {
                    assert(precedes(before[i as int].0, before[bb].0));
                }
                if a == i {
                    if !replace && i < bb {
                        lemma_precedes_is_transitive(k, before[i as int].0, before[bb].0);
                    }
                } else {
                    let aa = if a < i || replace {
                        a
                    } else {
                        a - 1
                    };
                    assert(models(entries@)[a] == before[aa]);
                }
            } else {
                assert(models(entries@)[a] == before[a]);
                if b < i {
                    assert(models(entries@)[b] == before[b]);
                }
            }
        }
        assert forall|q: Seq<u8>| #[trigger] lookup(models(entries@), q) == (if q == k {
            Some(v)
        } else {
            lookup(before, q)
        }) by {
            lemma_lookup_concat(head, seq![(k, v)] + tail, q);
            assert((seq![(k, v)] + tail).skip(1) =~= tail);
            lemma_lookup_concat(head, before.skip(i as int), q);
            assert(head + before.skip(i as int) =~= before);
            if q == k {
                assert forall|j: int| 0 <= j < head.len() implies (#[trigger] head[j]).0
                    != k by {
                    assert(head[j] == before[j]);
                    lemma_precedes_is_strict(before[j].0, k);
                }
                lemma_lookup_absent(head, k);
            } else if replace {
                assert(before.skip(i as int).skip(1) =~= tail);
            }
        }
    }
}

/// The value of a key is that of the first entry with the key, wherever it stands, and the
/// value that was last given to it that of the last such entry; there is none if and only if
/// no entry has the key.
pub proof fn law_lookup_finds_the_key(entries: Seq<HeaderModel>, key: Seq<u8>)
    ensures
        lookup(entries, key) is None <==> forall|i: int|
            0 <= i < entries.len() ==> (#[trigger] entries[i]).0 != key,
        lookup(entries, key) matches Some(v) ==> exists|i: int|
            {
                &&& 0 <= i < entries.len()
                &&& #[trigger] entries[i] == (key, v)
                &&& forall|j: int| 0 <= j < i ==> (#[trigger] entries[j]).0 != key
            },
        last_value(entries, key) is None <==> forall|i: int|
            0 <= i < entries.len() ==> (#[trigger] entries[i]).0 != key,
        last_value(entries, key) matches Some(v) ==> exists|i: int|
            {
                &&& 0 <= i < entries.len()
                &&& #[trigger] entries[i] == (key, v)
                &&& forall|j: int| i < j < entries.len() ==> (#[trigger] entries[j]).0 != key
            },
{
    lemma_lookup_first(entries, key);
    lemma_last_value_last(entries, key);
}

proof fn lemma_lookup_first(entries: Seq<HeaderModel>, key: Seq<u8>)
    ensures
        match lookup(entries, key) {
            None => forall|i: int| 0 <= i < entries.len() ==> (#[trigger] entries[i]).0 != key,
            Some(v) => exists|i: int|
                {
                    &&& 0 <= i < entries.len()
                    &&& #[trigger] entries[i] == (key, v)
                    &&& forall|j: int| 0 <= j < i ==> (#[trigger] entries[j]).0 != key
                },
        },
    decreases entries.len(),
{
    if entries.len() > 0 {
        let tail = entries.skip(1);
        lemma_lookup_first(tail, key);
        if entries[0].0 == key {
            assert(entries[0] == (key, entries[0].1));
        } else {
            match lookup(tail, key) {
                None => {
                    assert forall|i: int| 0 <= i < entries.len() implies (#[trigger] entries[i]).0
                        != key by {
                        if i > 0 {
                            assert(tail[i - 1] == entries[i]);
                        }
                    }
                },
                Some(v) => {
                    let i = choose|i: int|
                        {
                            &&& 0 <= i < tail.len()
                            &&& #[trigger] tail[i] == (key, v)
                            &&& forall|j: int| 0 <= j < i ==> (#[trigger] tail[j]).0 != key
                        };
                    assert(entries[i + 1] == (key, v));
                    assert forall|j: int| 0 <= j < i + 1 implies (#[trigger] entries[j]).0
                        != key by {
                        if j > 0 {
                            assert(tail[j - 1] == entries[j]);
                        }
                    }
                },
            }
        }
    }
}

proof fn lemma_last_value_last(entries: Seq<HeaderModel>, key: Seq<u8>)
    ensures
        match last_value(entries, key) {
            None => forall|i: int| 0 <= i < entries.len() ==> (#[trigger] entries[i]).0 != key,
            Some(v) => exists|i: int|
                {
                    &&& 0 <= i < entries.len()
                    &&& #[trigger] entries[i] == (key, v)
                    &&& forall|j: int| i < j < entries.len() ==> (#[trigger] entries[j]).0 != key
                },
        },
    decreases entries.len(),
{
    if entries.len() > 0 {
        let front = entries.drop_last();
        let n = entries.len() - 1;
        lemma_last_value_last(front, key);
        if entries[n].0 == key {
            assert(entries[n] == (key, entries[n].1));
        } else {
            match last_value(front, key) {
                None => {
                    assert forall|i: int| 0 <= i < entries.len() implies (#[trigger] entries[i]).0
                        != key by {
                        if i < n {
                            assert(front[i] == entries[i]);
                        }
                    }
                },
                Some(v) => {
                    let i = choose|i: int|
                        {
                            &&& 0 <= i < front.len()
                            &&& #[trigger] front[i] == (key, v)
                            &&& forall|j: int|
                                i < j < front.len() ==> (#[trigger] front[j]).0 != key
                        };
                    assert(entries[i] == (key, v));
                    assert forall|j: int| i < j < entries.len() implies (#[trigger] entries[j]).0
                        != key by {
                        if j < n {
                            assert(front[j] == entries[j]);
                        }
                    }
                },
            }
        }
    }
}

} // verus!
