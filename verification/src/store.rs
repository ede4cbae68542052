//! The shared key-value store: a mapping from string keys to byte-sequence
//! values, modelled as a mathematical `Map` and kept with unique keys.

use vstd::prelude::*;

verus! {

/// Map denoted by the first `n` entries of an association list; a later
/// entry for the same key wins.
pub open spec fn map_of(es: Seq<(String, Vec<u8>)>, n: int) -> Map<Seq<char>, Seq<u8>>
    decreases n,
{
    if n <= 0 {
        Map::empty()
    } else {
        map_of(es, n - 1).insert(es[n - 1].0@, es[n - 1].1@)
    }
}

/// No two entries share a key.
pub open spec fn uniq(es: Seq<(String, Vec<u8>)>, n: int) -> bool {
    forall|a: int, b: int| 0 <= a < b < n ==> (#[trigger] es[a]).0@ != (#[trigger] es[b]).0@
}

/// The keys of the map are exactly the keys of the entries.
proof fn lemma_map_of_contains(es: Seq<(String, Vec<u8>)>, n: int)
    requires
        0 <= n <= es.len(),
    ensures
        forall|k: Seq<char>|
            #[trigger] map_of(es, n).contains_key(k) <==> exists|j: int|
                0 <= j < n && (#[trigger] es[j]).0@ == k,
    decreases n,
{
    if n > 0 {
        lemma_map_of_contains(es, n - 1);
        assert forall|k: Seq<char>| #[trigger] map_of(es, n).contains_key(k) implies exists|j: int|
            0 <= j < n && (#[trigger] es[j]).0@ == k by {
            if k == es[n - 1].0@ {
                assert(0 <= n - 1 < n && (es[n - 1]).0@ == k);
            } else {
                assert(map_of(es, n - 1).contains_key(k));
                let j = choose|j: int| 0 <= j < n - 1 && (#[trigger] es[j]).0@ == k;
                assert(0 <= j < n && (es[j]).0@ == k);
            }
        }
        assert forall|k: Seq<char>|
            (exists|j: int| 0 <= j < n && (#[trigger] es[j]).0@ == k) implies #[trigger] map_of(
            es,
            n,
        ).contains_key(k) by {
            let j = choose|j: int| 0 <= j < n && (#[trigger] es[j]).0@ == k;
            if j < n - 1 {
                assert(exists|l: int| 0 <= l < n - 1 && (#[trigger] es[l]).0@ == k);
                assert(map_of(es, n - 1).contains_key(k));
            } else {
                assert(es[n - 1].0@ == k);
            }
        }
    }
}

/// An entry whose key recurs in no later entry gives the map's value.
proof fn lemma_map_of_latest(es: Seq<(String, Vec<u8>)>, n: int, j: int)
    requires
        0 <= j < n <= es.len(),
        forall|l: int| j < l < n ==> (#[trigger] es[l]).0@ != es[j].0@,
    ensures
        map_of(es, n).contains_key(es[j].0@),
        map_of(es, n)[es[j].0@] == es[j].1@,
    decreases n,
{
    if j < n - 1 {
        lemma_map_of_latest(es, n - 1, j);
    }
}

/// The map reads only the first `n` entries.
proof fn lemma_map_of_agree(es: Seq<(String, Vec<u8>)>, fs: Seq<(String, Vec<u8>)>, n: int)
    requires
        0 <= n <= es.len(),
        n <= fs.len(),
        forall|j: int| 0 <= j < n ==> #[trigger] es[j] == fs[j],
    ensures
        map_of(es, n) == map_of(fs, n),
    decreases n,
{
    if n > 0 {
        lemma_map_of_agree(es, fs, n - 1);
    }
}

/// Removing an entry removes its key, when keys are unique.
proof fn lemma_map_of_remove(es: Seq<(String, Vec<u8>)>, n: int, i: int)
    requires
        0 <= i < n <= es.len(),
        uniq(es, n),
    ensures
        map_of(es.remove(i), n - 1) == map_of(es, n).remove(es[i].0@),
    decreases n,
{
    let k = es[i].0@;
    if i == n - 1 {
        lemma_map_of_agree(es.remove(i), es, n - 1);
        lemma_map_of_contains(es, n - 1);
        assert(!map_of(es, n - 1).contains_key(k)) by {
            if map_of(es, n - 1).contains_key(k) {
                let j = choose|j: int| 0 <= j < n - 1 && (#[trigger] es[j]).0@ == k;
            }
        }
        assert(map_of(es, n - 1) =~= map_of(es, n).remove(k));
    } else {
        let es1 = es.remove(i);
        lemma_map_of_remove(es.take(n - 1), n - 1, i);
        lemma_map_of_agree(es.take(n - 1), es, n - 1);
        lemma_map_of_agree(es.take(n - 1).remove(i), es1, n - 2);
        assert(es1[n - 2] == es[n - 1]);
        assert(map_of(es1, n - 1) == map_of(es1, n - 2).insert(es[n - 1].0@, es[n - 1].1@));
        assert(es[n - 1].0@ != k);
        assert(map_of(es, n - 1).remove(k).insert(es[n - 1].0@, es[n - 1].1@) =~= map_of(
            es,
            n,
        ).remove(k));
    }
}

/// The shared in-memory key-value store.
pub struct Store {
    entries: Vec<(String, Vec<u8>)>,
}

impl View for Store {
    type V = Map<Seq<char>, Seq<u8>>;

    closed spec fn view(&self) -> Map<Seq<char>, Seq<u8>> {
        map_of(self.entries@, self.entries@.len() as int)
    }
}

impl Store {
    /// The store's internal well-formedness: one entry per key.
    pub closed spec fn inv(&self) -> bool {
        uniq(self.entries@, self.entries@.len() as int)
    }

    /// An empty store.
    pub fn new() -> (s: Store)
        ensures
            s.inv(),
            s@ == Map::<Seq<char>, Seq<u8>>::empty(),
    {
        Store { entries: Vec::new() }
    }

    /// Current value for `key`, or `None` when unset. No side effects.
    pub fn get(&self, key: &String) -> (r: Option<&Vec<u8>>)
        requires
            self.inv(),
        ensures
            match r {
                Some(v) => self@.contains_key(key@) && v@ == self@[key@],
                None => !self@.contains_key(key@),
            },
    {
        let n = self.entries.len();
        let mut i: usize = 0;
        while i < n
            invariant
                i <= n == self.entries@.len(),
                self.inv(),
                forall|j: int| 0 <= j < i ==> (#[trigger] self.entries@[j]).0@ != key@,
            decreases n - i,
        {
            if key.eq(&self.entries[i].0) {
                proof {
                    lemma_map_of_latest(self.entries@, n as int, i as int);
                }
                return Some(&self.entries[i].1);
            }
            i = i + 1;
        }
        proof {
            lemma_map_of_contains(self.entries@, n as int);
            if self@.contains_key(key@) {
                let j = choose|j: int|
                    0 <= j < n && (#[trigger] self.entries@[j]).0@ == key@;
            }
        }
        None
    }

    /// Inserts or overwrites the value for `key`: the last writer wins.
    pub fn set(&mut self, key: String, value: Vec<u8>)
        requires
            old(self).inv(),
        ensures
            final(self).inv(),
            final(self)@ == old(self)@.insert(key@, value@),
    {
        let ghost es = self.entries@;
        let ghost n0 = self.entries@.len() as int;
        let n = self.entries.len();
        let mut i: usize = 0;
        while i < n
            invariant
                i <= n == self.entries@.len(),
                n0 == n as int,
                es == self.entries@,
                es == old(self).entries@,
                self.inv(),
                forall|j: int| 0 <= j < i ==> (#[trigger] self.entries@[j]).0@ != key@,
            decreases n - i,
        {
            if key.eq(&self.entries[i].0) {
                proof {
                    lemma_map_of_remove(es, n0, i as int);
                }
                self.entries.remove(i);
                let ghost es1 = self.entries@;
                self.entries.push((key, value));
                proof {
                    lemma_map_of_agree(es1.push((key, value)), es1, n0 - 1);
                    assert(self.entries@[n0 - 1] == (key, value));
                    assert(map_of(self.entries@, n0) == map_of(es1, n0 - 1).insert(key@, value@));
                    assert(map_of(es1, n0 - 1) == map_of(es, n0).remove(es[i as int].0@));
                    assert(es[i as int].0@ == key@);
                    assert(map_of(es, n0).remove(key@).insert(key@, value@) =~= map_of(
                        es,
                        n0,
                    ).insert(key@, value@));
                    assert(self.entries@.len() == n0);
                    assert(self@ == map_of(es, n0).insert(key@, value@));
                    assert forall|a: int, b: int|
                        0 <= a < b < n0 implies (#[trigger] self.entries@[a]).0@ != (
                    #[trigger] self.entries@[b]).0@ by {
                        if b < n0 - 1 {
                            let oa: int = if a < i { a } else { a + 1 };
                            let ob: int = if b < i { b } else { b + 1 };
                            assert(self.entries@[a] == es[oa] && self.entries@[b] == es[ob]);
                        } else {
                            let oa: int = if a < i { a } else { a + 1 };
                            assert(self.entries@[a] == es[oa]);
                            assert(oa != i);
                            assert(es[oa].0@ != es[i as int].0@);
                        }
                    }
                }
                return ;
            }
            i = i + 1;
        }
        proof {
            lemma_map_of_agree(es.push((key, value)), es, n0);
        }
        self.entries.push((key, value));
        proof {
            assert(self.entries@[n0] == (key, value));
            assert(map_of(self.entries@, n0 + 1) == map_of(es, n0).insert(key@, value@));
            assert forall|a: int, b: int|
                0 <= a < b < n0 + 1 implies (#[trigger] self.entries@[a]).0@ != (
            #[trigger] self.entries@[b]).0@ by {
                if b < n0 {
                    assert(self.entries@[a] == es[a] && self.entries@[b] == es[b]);
                } else {
                    assert(self.entries@[a] == es[a]);
                }
            }
        }
    }
}

/// After a completed `set` of `v` under `k`, a `get` of `k` sees exactly
/// `v`, whatever map the store held before: writes are never torn or lost.
pub proof fn lemma_set_then_get(m: Map<Seq<char>, Seq<u8>>, k: Seq<char>, v: Seq<u8>)
    ensures
        m.insert(k, v).contains_key(k),
        m.insert(k, v)[k] == v,
{
}

/// Two sets of the same key, in whichever order the store's guard admits
/// them, leave that key bound to one of the two written values — never a
/// mixture — and touch no other key.
pub proof fn lemma_concurrent_set_last_writer_wins(
    m: Map<Seq<char>, Seq<u8>>,
    k: Seq<char>,
    v1: Seq<u8>,
    v2: Seq<u8>,
)
    ensures
        m.insert(k, v1).insert(k, v2)[k] == v2,
        m.insert(k, v2).insert(k, v1)[k] == v1,
        forall|kk: Seq<char>|
            kk != k ==> (#[trigger] m.insert(k, v1).insert(k, v2).contains_key(kk)
                == m.contains_key(kk) && (m.contains_key(kk) ==> m.insert(k, v1).insert(
                k,
                v2,
            )[kk] == m[kk])),
{
}

} // verus!
