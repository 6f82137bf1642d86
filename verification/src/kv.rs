//! The key-value state machine.

use vstd::prelude::*;

use crate::message::Command;

verus! {

// ── Key order ──────────────────────────────────────────────────────────────

/// Whether `a` comes before `b` in dictionary order, at the position `at` where
/// the two part.
pub open spec fn parts_at(a: Seq<u8>, b: Seq<u8>, at: int) -> bool {
    &&& 0 <= at < b.len()
    &&& at <= a.len()
    &&& forall|i: int| 0 <= i < at ==> a[i] == b[i]
    &&& at < a.len() ==> a[at] < b[at]
}

/// Dictionary order of byte strings.
pub open spec fn precedes(a: Seq<u8>, b: Seq<u8>) -> bool {
    exists|at: int| parts_at(a, b, at)
}

/// The bytes by which a key is ordered.
pub open spec fn key_bytes(key: Seq<char>) -> Seq<u8> {
    vstd::utf8::encode_utf8(key)
}

/// No byte string comes before itself, and dictionary order is transitive.
pub proof fn precedes_is_an_order(a: Seq<u8>, b: Seq<u8>, c: Seq<u8>)
    ensures
        !precedes(a, a),
        precedes(a, b) && precedes(b, c) ==> precedes(a, c),
{
    if precedes(a, b) && precedes(b, c) {
        let i = choose|at: int| parts_at(a, b, at);
        let j = choose|at: int| parts_at(b, c, at);
        assert(parts_at(a, c, if i <= j { i } else { j }));
    }
}

/// How one key stands to another.
enum Relation {
    Before,
    Same,
    After,
}

fn relate(a: &str, b: &str) -> (relation: Relation)
    ensures
        match relation {
            Relation::Before => precedes(key_bytes(a@), key_bytes(b@)),
            Relation::Same => a@ == b@,
            Relation::After => precedes(key_bytes(b@), key_bytes(a@)),
        },
{
    let left = a.as_bytes();
    let right = b.as_bytes();
    let mut i: usize = 0;
    while i < left.len() && i < right.len() && left[i] == right[i]
        invariant
            i <= left.len(),
            i <= right.len(),
            forall|j: int| 0 <= j < i ==> left@[j] == right@[j],
        decreases left.len() - i,
    {
        i = i + 1;
    }
    proof {
        vstd::utf8::encode_utf8_decode_utf8(a@);
        vstd::utf8::encode_utf8_decode_utf8(b@);
    }
    if i == left.len() && i == right.len() {
        assert(left@ =~= right@);
        Relation::Same
    } else if i == left.len() || (i < right.len() && left[i] < right[i]) {
        assert(parts_at(left@, right@, i as int));
        Relation::Before
    } else {
        assert(parts_at(right@, left@, i as int));
        Relation::After
    }
}

// ── Contents ───────────────────────────────────────────────────────────────

/// A list of pairs as text.
pub open spec fn texts(pairs: Seq<(String, String)>) -> Seq<(Seq<char>, Seq<char>)> {
    pairs.map_values(|pair: (String, String)| (pair.0@, pair.1@))
}

/// What an optional text says.
pub open spec fn text_of(value: Option<String>) -> Option<Seq<char>> {
    match value {
        Some(text) => Some(text@),
        None => None,
    }
}

/// The map that results when the pairs are put in one after the other.
pub open spec fn map_of(pairs: Seq<(Seq<char>, Seq<char>)>) -> Map<Seq<char>, Seq<char>>
    decreases pairs.len(),
{
    if pairs.len() == 0 {
        Map::empty()
    } else {
        map_of(pairs.drop_last()).insert(pairs.last().0, pairs.last().1)
    }
}

/// Whether the keys of the pairs stand in ascending order, each once.
pub open spec fn ascending(pairs: Seq<(Seq<char>, Seq<char>)>) -> bool {
    forall|i: int, j: int|
        0 <= i < j < pairs.len() ==> precedes(
            key_bytes(#[trigger] pairs[i].0),
            key_bytes(#[trigger] pairs[j].0),
        )
}

/// The map of pairs with distinct keys holds exactly these pairs.
proof fn map_of_ascending(pairs: Seq<(Seq<char>, Seq<char>)>)
    requires
        ascending(pairs),
    ensures
        forall|i: int|
            0 <= i < pairs.len() ==> map_of(pairs).contains_key(#[trigger] pairs[i].0)
                && map_of(pairs)[pairs[i].0] == pairs[i].1,
        forall|key: Seq<char>| #[trigger]
            map_of(pairs).contains_key(key) ==> exists|i: int|
                0 <= i < pairs.len() && #[trigger] pairs[i].0 == key,
        map_of(pairs).dom().finite(),
        map_of(pairs).dom().len() == pairs.len(),
    decreases pairs.len(),
{
    if pairs.len() > 0 {
        let rest = pairs.drop_last();
        map_of_ascending(rest);
        let last = pairs.last();
        assert forall|i: int| 0 <= i < rest.len() implies #[trigger] rest[i].0 != last.0 by {
            assert(precedes(key_bytes(pairs[i].0), key_bytes(pairs[pairs.len() - 1].0)));
            precedes_is_an_order(key_bytes(last.0), key_bytes(last.0), key_bytes(last.0));
        }
        assert(!map_of(rest).contains_key(last.0));
        assert forall|i: int| 0 <= i < pairs.len() implies map_of(pairs).contains_key(
            #[trigger] pairs[i].0,
        ) && map_of(pairs)[pairs[i].0] == pairs[i].1 by {
            if i < rest.len() {
                assert(rest[i] == pairs[i]);
            }
        }
        assert forall|key: Seq<char>| #[trigger] map_of(pairs).contains_key(key) implies exists|
            i: int,
        |
            0 <= i < pairs.len() && #[trigger] pairs[i].0 == key by {
            if key == last.0 {
                assert(pairs[pairs.len() - 1].0 == key);
            } else {
                let i = choose|i: int| 0 <= i < rest.len() && #[trigger] rest[i].0 == key;
                assert(pairs[i].0 == key);
            }
        }
    }
}

/// What a command makes of a map, and the value that the key had before.
pub open spec fn applied(store: Map<Seq<char>, Seq<char>>, command: Command) -> (
    Map<Seq<char>, Seq<char>>,
    Option<Seq<char>>,
) {
    match command {
        Command::Put { key, value } => (store.insert(key@, value@), lookup(store, key@)),
        Command::Delete { key } => (store.remove(key@), lookup(store, key@)),
        Command::Noop => (store, None),
    }
}

pub open spec fn lookup(store: Map<Seq<char>, Seq<char>>, key: Seq<char>) -> Option<Seq<char>> {
    if store.contains_key(key) {
        Some(store[key])
    } else {
        None
    }
}

/// Immutable key-value state machine.
///
/// Every change returns a new `KvStore`; the old one is never modified.
#[derive(Debug)]
pub struct KvStore {
    /// The pairs in ascending order of their keys.
    data: Vec<(String, String)>,
}

impl View for KvStore {
    type V = Map<Seq<char>, Seq<char>>;

    closed spec fn view(&self) -> Map<Seq<char>, Seq<char>> {
        map_of(texts(self.data@))
    }
}

impl KvStore {
    #[verifier::type_invariant]
    spec fn sorted(self) -> bool {
        ascending(texts(self.data@))
    }

    pub fn new() -> (store: KvStore)
        ensures
            store@ == Map::<Seq<char>, Seq<char>>::empty(),
    {
        KvStore { data: Vec::new() }
    }

    /// The place of `key`: its position if it is there, else the position at
    /// which it belongs.
    fn place(&self, key: &str) -> (result: (usize, bool))
        ensures
            result.0 <= self.data@.len(),
            result.1 ==> result.0 < self.data@.len() && texts(self.data@)[result.0 as int].0
                == key@,
            !result.1 ==> !self@.contains_key(key@),
            forall|i: int|
                0 <= i < result.0 ==> precedes(
                    key_bytes(#[trigger] texts(self.data@)[i].0),
                    key_bytes(key@),
                ),
            forall|i: int|
                result.0 <= i < self.data@.len() && (result.1 ==> i > result.0) ==> precedes(
                    key_bytes(key@),
                    key_bytes(#[trigger] texts(self.data@)[i].0),
                ),
    {
        proof {
            use_type_invariant(self);
        }
        let ghost pairs = texts(self.data@);
        let mut low: usize = 0;
        let mut high: usize = self.data.len();
        while low < high
            invariant
                low <= high <= self.data@.len(),
                pairs == texts(self.data@),
                ascending(pairs),
                forall|i: int|
                    0 <= i < low ==> precedes(key_bytes(#[trigger] pairs[i].0), key_bytes(key@)),
                forall|i: int|
                    high <= i < pairs.len() ==> precedes(
                        key_bytes(key@),
                        key_bytes(#[trigger] pairs[i].0),
                    ),
            decreases high - low,
        {
            let middle = low + (high - low) / 2;
            assert(pairs[middle as int].0 == self.data@[middle as int].0@);
            match relate(self.data[middle].0.as_str(), key) {
                Relation::Before => {
                    assert forall|i: int| 0 <= i < middle + 1 implies precedes(
                        key_bytes(#[trigger] pairs[i].0),
                        key_bytes(key@),
                    ) by {
                        precedes_is_an_order(
                            key_bytes(pairs[i].0),
                            key_bytes(pairs[middle as int].0),
                            key_bytes(key@),
                        );
                    }
                    low = middle + 1;
                },
                Relation::After => {
                    assert forall|i: int| middle <= i < pairs.len() implies precedes(
                        key_bytes(key@),
                        key_bytes(#[trigger] pairs[i].0),
                    ) by {
                        precedes_is_an_order(
                            key_bytes(key@),
                            key_bytes(pairs[middle as int].0),
                            key_bytes(pairs[i].0),
                        );
                    }
                    high = middle;
                },
                Relation::Same => {
                    return (middle, true);
                },
            }
        }
        proof {
            map_of_ascending(pairs);
            if self@.contains_key(key@) {
                let i = choose|i: int| 0 <= i < pairs.len() && #[trigger] pairs[i].0 == key@;
                precedes_is_an_order(key_bytes(key@), key_bytes(key@), key_bytes(key@));
            }
        }
        (low, false)
    }

    /// Applies a committed command and returns the new store and the value that
    /// the key had before, if any.
    pub fn apply(&self, command: &Command) -> (result: (KvStore, Option<String>))
        ensures
            (result.0@, text_of(result.1)) == applied(self@, *command),
    {
        match command {
            Command::Put { key, value } => self.with(key, value),
            Command::Delete { key } => self.without(key),
            Command::Noop => (self.clone(), None),
        }
    }

    fn with(&self, key: &String, value: &String) -> (result: (KvStore, Option<String>))
        ensures
            result.0@ == self@.insert(key@, value@),
            text_of(result.1) == lookup(self@, key@),
    {
        proof {
            use_type_invariant(self);
        }
        let ghost pairs = texts(self.data@);
        let (at, found) = self.place(key.as_str());
        let mut data = copy_pairs(&self.data);
        proof {
            map_of_ascending(pairs);
            precedes_is_an_order(key_bytes(key@), key_bytes(key@), key_bytes(key@));
        }
        let ghost new_pairs = if found {
            pairs.update(at as int, (key@, value@))
        } else {
            pairs.insert(at as int, (key@, value@))
        };
        proof {
            assert(ascending(new_pairs));
            map_of_ascending(new_pairs);
            let after = map_of(new_pairs);
            assert(new_pairs[at as int] == (key@, value@));
            assert forall|k: Seq<char>| after.contains_key(k) <==> k == key@ || self@.contains_key(
                k,
            ) by {
                if after.contains_key(k) && k != key@ {
                    let i = choose|i: int|
                        0 <= i < new_pairs.len() && #[trigger] new_pairs[i].0 == k;
                    assert(i != at);
                    let j = if found || i < at {
                        i
                    } else {
                        i - 1
                    };
                    assert(new_pairs[i] == pairs[j]);
                    assert(self@.contains_key(pairs[j].0));
                }
                if self@.contains_key(k) && k != key@ {
                    let i = choose|i: int| 0 <= i < pairs.len() && #[trigger] pairs[i].0 == k;
                    let j = if found || i < at {
                        i
                    } else {
                        i + 1
                    };
                    assert(new_pairs[j] == pairs[i]);
                    assert(after.contains_key(new_pairs[j].0));
                }
                if k == key@ {
                    assert(after.contains_key(new_pairs[at as int].0));
                }
            }
            assert forall|k: Seq<char>| self@.contains_key(k) && k != key@ implies after[k]
                == self@[k] by {
                let i = choose|i: int| 0 <= i < pairs.len() && #[trigger] pairs[i].0 == k;
                let j = if found || i < at {
                    i
                } else {
                    i + 1
                };
                assert(new_pairs[j] == pairs[i]);
            }
            assert(after =~= self@.insert(key@, value@));
        }
        let previous = if found {
            let previous = data[at].1.clone();
            data.set(at, (key.clone(), value.clone()));
            Some(previous)
        } else {
            data.insert(at, (key.clone(), value.clone()));
            None
        };
        assert(texts(data@) =~= new_pairs);
        (KvStore { data }, previous)
    }

    fn without(&self, key: &String) -> (result: (KvStore, Option<String>))
        ensures
            result.0@ == self@.remove(key@),
            text_of(result.1) == lookup(self@, key@),
    {
        proof {
            use_type_invariant(self);
        }
        let ghost pairs = texts(self.data@);
        let (at, found) = self.place(key.as_str());
        let mut data = copy_pairs(&self.data);
        proof {
            map_of_ascending(pairs);
            precedes_is_an_order(key_bytes(key@), key_bytes(key@), key_bytes(key@));
        }
        if !found {
            assert(texts(data@) =~= pairs);
            assert(self@.remove(key@) =~= self@);
            return (KvStore { data }, None);
        }
        let ghost new_pairs = pairs.remove(at as int);
        proof {
            assert(ascending(new_pairs));
            map_of_ascending(new_pairs);
            let after = map_of(new_pairs);
            assert forall|k: Seq<char>| after.contains_key(k) <==> k != key@ && self@.contains_key(
                k,
            ) by {
                if after.contains_key(k) {
                    let i = choose|i: int|
                        0 <= i < new_pairs.len() && #[trigger] new_pairs[i].0 == k;
                    let j = if i < at {
                        i
                    } else {
                        i + 1
                    };
                    assert(pairs[j].0 == k);
                    assert(j != at);
                }
                if self@.contains_key(k) && k != key@ {
                    let i = choose|i: int| 0 <= i < pairs.len() && #[trigger] pairs[i].0 == k;
                    assert(new_pairs[if i < at { i } else { i - 1 }].0 == k);
                }
            }
            assert forall|k: Seq<char>| self@.contains_key(k) && k != key@ implies after[k]
                == self@[k] by {
                let i = choose|i: int| 0 <= i < pairs.len() && #[trigger] pairs[i].0 == k;
                let j = if i < at {
                    i
                } else {
                    i - 1
                };
                assert(new_pairs[j] == pairs[i]);
            }
            assert(after =~= self@.remove(key@));
        }
        let removed = data.remove(at);
        assert(texts(data@) =~= new_pairs);
        (KvStore { data }, Some(removed.1))
    }

    /// Looks up a key without changing the store.
    pub fn get(&self, key: &str) -> (value: Option<&str>)
        ensures
            match value {
                Some(text) => lookup(self@, key@) == Some(text@),
                None => lookup(self@, key@) is None,
            },
    {
        proof {
            use_type_invariant(self);
            map_of_ascending(texts(self.data@));
        }
        let (at, found) = self.place(key);
        if found {
            assert(texts(self.data@)[at as int].1 == self.data@[at as int].1@);
            Some(self.data[at].1.as_str())
        } else {
            None
        }
    }

    pub fn len(&self) -> (len: usize)
        ensures
            self@.dom().finite(),
            len == self@.dom().len(),
    {
        proof {
            use_type_invariant(self);
            map_of_ascending(texts(self.data@));
        }
        self.data.len()
    }

    pub fn is_empty(&self) -> (empty: bool)
        ensures
            empty <==> self@ == Map::<Seq<char>, Seq<char>>::empty(),
    {
        proof {
            use_type_invariant(self);
            map_of_ascending(texts(self.data@));
            if self.data@.len() > 0 {
                assert(self@.contains_key(texts(self.data@)[0].0));
            }
        }
        self.data.len() == 0
    }

    /// The pairs of the store, in ascending order of their keys.
    pub fn into_pairs(self) -> (pairs: Vec<(String, String)>)
        ensures
            map_of(texts(pairs@)) == self@,
            ascending(texts(pairs@)),
    {
        proof {
            use_type_invariant(&self);
        }
        self.data
    }
}

impl Clone for KvStore {
    fn clone(&self) -> (copy: Self)
        ensures
            copy@ == self@,
    {
        proof {
            use_type_invariant(self);
        }
        let data = copy_pairs(&self.data);
        assert(texts(data@) =~= texts(self.data@));
        KvStore { data }
    }
}

impl Default for KvStore {
    fn default() -> (store: Self)
        ensures
            store@ == Map::<Seq<char>, Seq<char>>::empty(),
    {
        KvStore::new()
    }
}

fn copy_pairs(pairs: &Vec<(String, String)>) -> (copy: Vec<(String, String)>)
    ensures
        copy@ == pairs@,
{
    let mut copy: Vec<(String, String)> = Vec::new();
    let mut i: usize = 0;
    while i < pairs.len()
        invariant
            i <= pairs@.len(),
            copy@ =~= pairs@.take(i as int),
        decreases pairs@.len() - i,
    {
        copy.push((pairs[i].0.clone(), pairs[i].1.clone()));
        i = i + 1;
    }
    copy
}

/// The store that results when the pairs are put in one after the other.
pub fn kv_from_pairs(pairs: Vec<(String, String)>) -> (store: KvStore)
    ensures
        store@ == map_of(texts(pairs@)),
{
    let mut store = KvStore::new();
    let mut i: usize = 0;
    while i < pairs.len()
        invariant
            i <= pairs@.len(),
            store@ == map_of(texts(pairs@).take(i as int)),
        decreases pairs@.len() - i,
    {
        store = store.with(&pairs[i].0, &pairs[i].1).0;
        assert(texts(pairs@).take(i + 1).drop_last() =~= texts(pairs@).take(i as int));
        i = i + 1;
    }
    assert(texts(pairs@).take(pairs@.len() as int) =~= texts(pairs@));
    store
}

// ── Laws ───────────────────────────────────────────────────────────────────

/// A read gives back the last write to its key.
pub proof fn put_is_read_back(store: Map<Seq<char>, Seq<char>>, key: String, value: String)
    ensures
        lookup(applied(store, Command::Put { key, value }).0, key@) == Some(value@),
{
}

/// A deleted key is not there any more.
pub proof fn deleted_key_is_absent(store: Map<Seq<char>, Seq<char>>, key: String)
    ensures
        lookup(applied(store, Command::Delete { key }).0, key@) is None,
{
}

/// A command changes no other key than its own.
pub proof fn other_keys_are_untouched(
    store: Map<Seq<char>, Seq<char>>,
    command: Command,
    other: Seq<char>,
)
    requires
        command matches Command::Put { key, value } ==> key@ != other,
        command matches Command::Delete { key } ==> key@ != other,
    ensures
        lookup(applied(store, command).0, other) == lookup(store, other),
{
}

/// Two lists of pairs that make the same map, both in ascending order, are the
/// same list: a store has one form on disk.
pub proof fn ascending_pairs_are_unique(
    a: Seq<(Seq<char>, Seq<char>)>,
    b: Seq<(Seq<char>, Seq<char>)>,
)
    requires
        ascending(a),
        ascending(b),
        map_of(a) == map_of(b),
    ensures
        a == b,
    decreases a.len(),
{
    map_of_ascending(a);
    map_of_ascending(b);
    if a.len() > 0 {
        // Both lists end with the greatest key.
        let last = a.last();
        let other = b.last();
        assert(a[a.len() - 1] == last && b[b.len() - 1] == other);
        if last.0 != other.0 {
            assert(map_of(b).contains_key(a[a.len() - 1].0));
            assert(map_of(a).contains_key(b[b.len() - 1].0));
            let i = choose|i: int| 0 <= i < b.len() && #[trigger] b[i].0 == last.0;
            let j = choose|j: int| 0 <= j < a.len() && #[trigger] a[j].0 == other.0;
            assert(precedes(key_bytes(b[i].0), key_bytes(b[b.len() - 1].0)));
            assert(precedes(key_bytes(a[j].0), key_bytes(a[a.len() - 1].0)));
            precedes_is_an_order(key_bytes(last.0), key_bytes(other.0), key_bytes(last.0));
            assert(false);
        }
        assert(map_of(a)[a[a.len() - 1].0] == last.1);
        assert(map_of(b)[b[b.len() - 1].0] == other.1);
        let ra = a.drop_last();
        let rb = b.drop_last();
        map_of_ascending(ra);
        map_of_ascending(rb);
        precedes_is_an_order(key_bytes(last.0), key_bytes(last.0), key_bytes(last.0));
        assert forall|i: int| 0 <= i < ra.len() implies #[trigger] ra[i].0 != last.0 by {
            assert(precedes(key_bytes(a[i].0), key_bytes(a[a.len() - 1].0)));
        }
        assert forall|i: int| 0 <= i < rb.len() implies #[trigger] rb[i].0 != last.0 by {
            assert(precedes(key_bytes(b[i].0), key_bytes(b[b.len() - 1].0)));
        }
        assert(map_of(ra) =~= map_of(a).remove(last.0));
        assert(map_of(rb) =~= map_of(b).remove(last.0));
        ascending_pairs_are_unique(ra, rb);
        assert(a =~= ra.push(last));
        assert(b =~= rb.push(last));
    } else {
        if b.len() > 0 {
            assert(map_of(b).contains_key(b[0].0));
        }
        assert(a =~= b);
    }
}

/// What is written is read back, until the key is written again or deleted, and no
/// other key is touched. A command gives back what the key had before, and a command
/// that does nothing gives back nothing.
pub proof fn commands_do_what_they_say(
    store: &KvStore,
    command: &Command,
    result: (KvStore, Option<String>),
    key: &str,
    before: Option<&str>,
    after: Option<&str>,
)
    requires
        call_ensures(KvStore::apply, (store, command), result),
        call_ensures(KvStore::get, (store, key), before),
        call_ensures(KvStore::get, (&result.0, key), after),
    ensures
        match *command {
            Command::Put { key: written, value } => if written@ == key@ {
                &&& after matches Some(text) && text@ == value@
                &&& result.1 is Some <==> before is Some
                &&& before is Some ==> result.1->0@ == before->0@
            } else {
                same_text(before, after)
            },
            Command::Delete { key: deleted } => if deleted@ == key@ {
                &&& after is None
                &&& result.1 is Some <==> before is Some
                &&& before is Some ==> result.1->0@ == before->0@
            } else {
                same_text(before, after)
            },
            Command::Noop => same_text(before, after) && result.1 is None,
        },
{
}

/// Whether two reads find the same.
pub open spec fn same_text(a: Option<&str>, b: Option<&str>) -> bool {
    &&& a is Some <==> b is Some
    &&& a is Some ==> a->0@ == b->0@
}

/// A read finds what is in the store, and the store is as large as it has keys. A new
/// store is empty.
pub proof fn reads_find_what_is_there(
    store: &KvStore,
    key: &str,
    found: Option<&str>,
    len: usize,
    empty: bool,
    new: KvStore,
)
    requires
        call_ensures(KvStore::get, (store, key), found),
        call_ensures(KvStore::len, (store,), len),
        call_ensures(KvStore::is_empty, (store,), empty),
        call_ensures(KvStore::new, (), new),
    ensures
        found is Some <==> store@.contains_key(key@),
        found is Some ==> found->0@ == store@[key@],
        len == store@.dom().len(),
        empty <==> store@ =~= Map::<Seq<char>, Seq<char>>::empty(),
        new@ =~= Map::<Seq<char>, Seq<char>>::empty(),
{
}

/// Whether the bytes of one word stand before those of another in a dictionary: up to
/// some place they are the same, and there the first one ends or has the lower byte.
pub open spec fn in_dictionary_order(a: Seq<u8>, b: Seq<u8>) -> bool {
    exists|at: int|
        0 <= at <= a.len() && at < b.len() && #[trigger] a.take(at) == b.take(at) && (at == a.len()
            || a[at] < b[at])
}

/// A store can be taken apart and put together again. Its pairs come out in the order
/// of their keys, each key once.
pub proof fn stores_can_be_taken_apart(
    store: KvStore,
    pairs: Vec<(String, String)>,
    again: KvStore,
)
    requires
        call_ensures(KvStore::into_pairs, (store,), pairs),
        call_ensures(kv_from_pairs, (pairs,), again),
    ensures
        again@ == store@,
        forall|i: int|
            0 <= i < pairs@.len() ==> store@.contains_key((#[trigger] pairs@[i]).0@)
                && store@[pairs@[i].0@] == pairs@[i].1@,
        forall|key: Seq<char>| #[trigger]
            store@.contains_key(key) ==> exists|i: int|
                0 <= i < pairs@.len() && (#[trigger] pairs@[i]).0@ == key,
        forall|i: int, j: int|
            0 <= i < j < pairs@.len() ==> in_dictionary_order(
                vstd::utf8::encode_utf8((#[trigger] pairs@[i]).0@),
                vstd::utf8::encode_utf8((#[trigger] pairs@[j]).0@),
            ),
{
    let list = texts(pairs@);
    map_of_ascending(list);
    assert forall|i: int| 0 <= i < pairs@.len() implies store@.contains_key(
        (#[trigger] pairs@[i]).0@,
    ) && store@[pairs@[i].0@] == pairs@[i].1@ by {
        assert(list[i].0 == pairs@[i].0@ && list[i].1 == pairs@[i].1@);
    }
    assert forall|key: Seq<char>| #[trigger] store@.contains_key(key) implies exists|i: int|
        0 <= i < pairs@.len() && (#[trigger] pairs@[i]).0@ == key by {
        let i = choose|i: int| 0 <= i < list.len() && #[trigger] list[i].0 == key;
        assert(pairs@[i].0@ == key);
    }
    assert forall|i: int, j: int| 0 <= i < j < pairs@.len() implies in_dictionary_order(
        vstd::utf8::encode_utf8((#[trigger] pairs@[i]).0@),
        vstd::utf8::encode_utf8((#[trigger] pairs@[j]).0@),
    ) by {
        assert(list[i].0 == pairs@[i].0@ && list[j].0 == pairs@[j].0@);
        let a = key_bytes(list[i].0);
        let b = key_bytes(list[j].0);
        let at = choose|at: int| parts_at(a, b, at);
        assert(a.take(at) =~= b.take(at));
    }
}

/// Pairs are put in one after the other, so that a later pair wins over an earlier one
/// with the same key.
pub proof fn later_pairs_win(
    some: Vec<(String, String)>,
    more: Vec<(String, String)>,
    before: KvStore,
    after: KvStore,
)
    requires
        more@.len() == some@.len() + 1,
        more@.drop_last() == some@,
        call_ensures(kv_from_pairs, (some,), before),
        call_ensures(kv_from_pairs, (more,), after),
    ensures
        after@ == before@.insert(more@.last().0@, more@.last().1@),
        some@.len() == 0 ==> before@ =~= Map::<Seq<char>, Seq<char>>::empty(),
{
    assert(texts(more@).drop_last() =~= texts(some@));
}

/// A copy of a store is that store.
pub proof fn copied_stores_are_alike(store: &KvStore, copy: KvStore)
    requires
        call_ensures(KvStore::clone, (store,), copy),
    ensures
        copy@ == store@,
{
}

} // verus!
