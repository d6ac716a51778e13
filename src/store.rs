use vstd::prelude::*;

verus! {

/// The key-value mapping: each key at most once, in no particular order.
pub struct Store {
    entries: Vec<(String, Vec<u8>)>,
    contents: Ghost<Map<Seq<char>, Seq<u8>>>,
}

impl Store {
    /// The mapping from key text to value bytes.
    pub closed spec fn view(&self) -> Map<Seq<char>, Seq<u8>> {
        self.contents@
    }

    pub closed spec fn wf(&self) -> bool {
        let e = self.entries@;
        let m = self.contents@;
        &&& forall|i: int|
            0 <= i < e.len() ==> m.contains_key(#[trigger] e[i].0@) && m[e[i].0@] == e[i].1@
        &&& forall|k: Seq<char>| #[trigger]
            m.contains_key(k) ==> exists|i: int| 0 <= i < e.len() && #[trigger] e[i].0@ == k
        &&& forall|i: int, j: int|
            0 <= i < e.len() && 0 <= j < e.len() && i != j ==> #[trigger] e[i].0@ != #[trigger] e[j].0@
    }

    /// An empty store.
    pub fn new() -> (r: Store)
        ensures
            r.wf(),
            r@ == Map::<Seq<char>, Seq<u8>>::empty(),
    {
        Store { entries: Vec::new(), contents: Ghost(Map::empty()) }
    }

    /// The position of `key` among the entries.
    fn find(&self, key: &String) -> (r: Option<usize>)
        requires
            self.wf(),
        ensures
            r matches Some(i) ==> i < self.entries@.len() && self.entries@[i as int].0@ == key@,
            r is None ==> !self@.contains_key(key@),
    {
        let mut i: usize = 0;
        while i < self.entries.len()
            invariant
                self.wf(),
                i <= self.entries@.len(),
                forall|j: int| 0 <= j < i ==> #[trigger] self.entries@[j].0@ != key@,
            decreases self.entries@.len() - i,
        {
            if self.entries[i].0 == *key {
                return Some(i);
            }
            i = i + 1;
        }
        None
    }

    /// The value held under `key`, if any.
    pub fn get(&self, key: &String) -> (r: Option<Vec<u8>>)
        requires
            self.wf(),
        ensures
            r matches Some(v) ==> self@.contains_key(key@) && v@ == self@[key@],
            r is None ==> !self@.contains_key(key@),
    {
        match self.find(key) {
            Some(i) => {
                let v = &self.entries[i].1;
                Some(crate::protocol::copy_range(v.as_slice(), 0, v.len()))
            },
            None => None,
        }
    }

    /// Holds `value` under `key`, replacing what was there.
    pub fn set(&mut self, key: String, value: Vec<u8>)
        requires
            old(self).wf(),
        ensures
            final(self).wf(),
            final(self)@ == old(self)@.insert(key@, value@),
    {
        let ghost m = self.contents@.insert(key@, value@);
        let ghost k = key@;
        let ghost v = value@;
        match self.find(&key) {
            Some(i) => {
                self.entries.set(i, (key, value));
                self.contents = Ghost(m);
                let ghost e = self.entries@;
                assert forall|c: Seq<char>| #[trigger] m.contains_key(c) implies exists|j: int|
                    0 <= j < e.len() && #[trigger] e[j].0@ == c by {
                    if c != k {
                        let j = choose|j: int| 0 <= j < old(self).entries@.len() && #[trigger] old(self).entries@[j].0@ == c;
                        assert(e[j].0@ == c);
                    } else {
                        assert(e[i as int].0@ == c);
                    }
                }
            },
            None => {
                self.entries.push((key, value));
                self.contents = Ghost(m);
                let ghost e = self.entries@;
                let ghost n = old(self).entries@.len();
                assert(e[n as int].0@ == k);
                assert forall|c: Seq<char>| #[trigger] m.contains_key(c) implies exists|j: int|
                    0 <= j < e.len() && #[trigger] e[j].0@ == c by {
                    if c != k {
                        let j = choose|j: int| 0 <= j < n && #[trigger] old(self).entries@[j].0@ == c;
                        assert(e[j].0@ == c);
                    }
                }
            },
        }
    }

    /// Removes `key`; tells whether it was there.
    pub fn del(&mut self, key: &String) -> (r: bool)
        requires
            old(self).wf(),
        ensures
            final(self).wf(),
            r == old(self)@.contains_key(key@),
            final(self)@ == old(self)@.remove(key@),
    {
        match self.find(key) {
            Some(i) => {
                let ghost m = self.contents@.remove(key@);
                let ghost k = key@;
                let ghost o = self.entries@;
                self.entries.remove(i);
                self.contents = Ghost(m);
                let ghost e = self.entries@;
                assert forall|j: int| 0 <= j < e.len() implies m.contains_key(#[trigger] e[j].0@)
                    && m[e[j].0@] == e[j].1@ by {
                    if j < i {
                        assert(e[j] == o[j]);
                    } else {
                        assert(e[j] == o[j + 1]);
                    }
                }
                assert forall|c: Seq<char>| #[trigger] m.contains_key(c) implies exists|j: int|
                    0 <= j < e.len() && #[trigger] e[j].0@ == c by {
                    let j = choose|j: int| 0 <= j < o.len() && #[trigger] o[j].0@ == c;
                    if j < i {
                        assert(e[j] == o[j]);
                    } else {
                        assert(e[j - 1] == o[j]);
                    }
                }
                assert forall|a: int, b: int|
                    0 <= a < e.len() && 0 <= b < e.len() && a != b implies #[trigger] e[a].0@
                    != #[trigger] e[b].0@ by {
                    let a1 = if a < i { a } else { a + 1 };
                    let b1 = if b < i { b } else { b + 1 };
                    assert(e[a] == o[a1]);
                    assert(e[b] == o[b1]);
                }
                true
            },
            None => {
                assert(self.contents@.remove(key@) =~= self.contents@);
                false
            },
        }
    }
}

} // verus!
