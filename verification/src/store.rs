//! The server's in-memory store: a mapping from string keys to byte-string
//! values, abstracted as a `Map<Seq<char>, Seq<u8>>`. Each operation is one
//! atomic step against that map; a server sharing one store among many
//! connection handlers serializes these steps under its lock, so the map
//! model is exactly what every handler observes.
use vstd::prelude::*;
use vstd::pervasive::VecAdditionalExecFns;
use vstd::string::StringSliceAdditionalSpecFns;

verus! {

/// The mapping an entry list denotes: later entries shadow earlier ones
/// with the same key.
pub open spec fn map_of(entries: Seq<(String, Vec<u8>)>) -> Map<Seq<char>, Seq<u8>>
    decreases entries.len(),
{
    if entries.len() == 0 {
        Map::empty()
    } else {
        map_of(entries.drop_last()).insert(entries.last().0@, entries.last().1@)
    }
}

/// A key none of the entries carries is absent from the denoted map.
proof fn lemma_map_of_absent(entries: Seq<(String, Vec<u8>)>, k: Seq<char>)
    requires
        forall|i: int| 0 <= i < entries.len() ==> (#[trigger] entries[i].0)@ != k,
    ensures
        !map_of(entries).contains_key(k),
    decreases entries.len(),
{
    if entries.len() > 0 {
        lemma_map_of_absent(entries.drop_last(), k);
    }
}

/// The newest entry with key `k` gives the denoted map's value at `k`.
proof fn lemma_map_of_found(entries: Seq<(String, Vec<u8>)>, i: int, k: Seq<char>)
    requires
        0 <= i < entries.len(),
        entries[i].0@ == k,
        forall|j: int| i < j < entries.len() ==> (#[trigger] entries[j].0)@ != k,
    ensures
        map_of(entries).contains_key(k),
        map_of(entries)[k] == entries[i].1@,
    decreases entries.len(),
{
    if i == entries.len() - 1 {
    } else {
        lemma_map_of_found(entries.drop_last(), i, k);
    }
}

/// Overwriting the newest entry with key `k` updates the denoted map at `k`
/// and nowhere else.
proof fn lemma_map_of_update(entries: Seq<(String, Vec<u8>)>, i: int, e: (String, Vec<u8>))
    requires
        0 <= i < entries.len(),
        entries[i].0@ == e.0@,
        forall|j: int| i < j < entries.len() ==> (#[trigger] entries[j].0)@ != e.0@,
    ensures
        map_of(entries.update(i, e)) == map_of(entries).insert(e.0@, e.1@),
    decreases entries.len(),
{
    let k = e.0@;
    let u = entries.update(i, e);
    if i == entries.len() - 1 {
        assert(u.drop_last() =~= entries.drop_last());
        assert(u.last() == e);
        assert(map_of(entries.drop_last()).insert(k, entries.last().1@).insert(k, e.1@)
            =~= map_of(entries.drop_last()).insert(k, e.1@));
    } else {
        let dl = entries.drop_last();
        assert(u.drop_last() =~= dl.update(i, e));
        lemma_map_of_update(dl, i, e);
        assert(u.last() == entries.last());
        assert(map_of(dl).insert(k, e.1@).insert(entries.last().0@, entries.last().1@)
            =~= map_of(dl).insert(entries.last().0@, entries.last().1@).insert(k, e.1@));
    }
}

/// String equality decided on the underlying bytes.
pub fn str_eq(a: &str, b: &str) -> (r: bool)
    ensures
        r == (a@ == b@),
{
    proof {
        vstd::utf8::encode_utf8_decode_utf8(a@);
        vstd::utf8::encode_utf8_decode_utf8(b@);
    }
    let ab = a.as_bytes();
    let bb = b.as_bytes();
    if ab.len() != bb.len() {
        return false;
    }
    let mut i: usize = 0;
    while i < ab.len()
        invariant
            i <= ab@.len() == bb@.len(),
            ab@ == a.spec_bytes(),
            bb@ == b.spec_bytes(),
            forall|m: int| 0 <= m < i ==> #[trigger] ab@[m] == bb@[m],
        decreases ab@.len() - i,
    {
        if ab[i] != bb[i] {
            return false;
        }
        i = i + 1;
    }
    proof {
        assert(ab@ =~= bb@);
        vstd::utf8::encode_utf8_decode_utf8(a@);
        vstd::utf8::encode_utf8_decode_utf8(b@);
    }
    true
}

/// Copy a byte vector.
pub fn clone_bytes(v: &Vec<u8>) -> (r: Vec<u8>)
    ensures
        r@ == v@,
{
    crate::decode::copy_range(v.as_slice(), 0, v.len())
}

/// The shared key-value store.
pub struct Store {
    entries: Vec<(String, Vec<u8>)>,
}

impl View for Store {
    type V = Map<Seq<char>, Seq<u8>>;

    closed spec fn view(&self) -> Map<Seq<char>, Seq<u8>> {
        map_of(self.entries@)
    }
}

impl Store {
    /// An empty store.
    pub fn new() -> (s: Store)
        ensures
            s@ == Map::<Seq<char>, Seq<u8>>::empty(),
    {
        Store { entries: Vec::new() }
    }

    /// Look a key up: the value it maps to, or `None` if absent.
    pub fn get(&self, key: &str) -> (r: Option<Vec<u8>>)
        ensures
            match r {
                Some(v) => self@.contains_key(key@) && v@ == self@[key@],
                None => !self@.contains_key(key@),
            },
    {
        let mut i: usize = self.entries.len();
        while i > 0
            invariant
                i <= self.entries@.len(),
                forall|j: int|
                    i <= j < self.entries@.len() ==> (#[trigger] self.entries@[j].0)@ != key@,
            decreases i,
        {
            i = i - 1;
            if str_eq(self.entries[i].0.as_str(), key) {
                proof {
                    lemma_map_of_found(self.entries@, i as int, key@);
                }
                return Some(clone_bytes(&self.entries[i].1));
            }
        }
        proof {
            lemma_map_of_absent(self.entries@, key@);
        }
        None
    }

    /// Bind a key to a value, inserting or overwriting unconditionally.
    pub fn set(&mut self, key: String, value: Vec<u8>)
        ensures
            final(self)@ == old(self)@.insert(key@, value@),
    {
        let mut i: usize = self.entries.len();
        while i > 0
            invariant
                i <= self.entries@.len(),
                self.entries == old(self).entries,
                forall|j: int|
                    i <= j < self.entries@.len() ==> (#[trigger] self.entries@[j].0)@ != key@,
            decreases i,
        {
            i = i - 1;
            if str_eq(self.entries[i].0.as_str(), key.as_str()) {
                proof {
                    lemma_map_of_update(self.entries@, i as int, (key, value));
                }
                self.entries.set(i, (key, value));
                return ;
            }
        }
        proof {
            assert(self.entries@.push((key, value)).drop_last() =~= self.entries@);
        }
        self.entries.push((key, value));
    }
}

} // verus!
