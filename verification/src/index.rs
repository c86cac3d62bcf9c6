//! The key→value index: an in-memory ordered store of one opaque string per
//! key, with get, put, delete and an ascending scan — the surface the
//! coordinator needs from its embedded store.
use vstd::prelude::*;

verus! {

/// Strict lexicographic order on key strings, by unicode scalar value.
pub open spec fn lex_lt(a: Seq<char>, b: Seq<char>) -> bool
    decreases a.len(),
{
    if b.len() == 0 {
        false
    } else if a.len() == 0 {
        true
    } else if a[0] != b[0] {
        (a[0] as int) < (b[0] as int)
    } else {
        lex_lt(a.drop_first(), b.drop_first())
    }
}

/// Two strings neither of which orders below the other are equal.
pub proof fn lemma_lex_connected(a: Seq<char>, b: Seq<char>)
    requires
        !lex_lt(a, b),
        !lex_lt(b, a),
    ensures
        a == b,
    decreases a.len(),
{
    if b.len() == 0 {
        if a.len() > 0 {
            assert(lex_lt(b, a));
        }
        assert(a =~= b);
    } else if a.len() == 0 {
        assert(lex_lt(a, b));
    } else {
        if a[0] != b[0] {
            assert(lex_lt(a, b) == ((a[0] as int) < (b[0] as int)));
            assert(lex_lt(b, a) == ((b[0] as int) < (a[0] as int)));
            assert(false);
        }
        assert(!lex_lt(a.drop_first(), b.drop_first()));
        assert(!lex_lt(b.drop_first(), a.drop_first()));
        lemma_lex_connected(a.drop_first(), b.drop_first());
        assert(forall|i: int|
            1 <= i < a.len() ==> #[trigger] a[i] == a.drop_first()[i - 1]);
        assert(forall|i: int|
            1 <= i < b.len() ==> #[trigger] b[i] == b.drop_first()[i - 1]);
        assert(a =~= b);
    }
}

pub proof fn lemma_lex_trans(a: Seq<char>, b: Seq<char>, c: Seq<char>)
    requires
        lex_lt(a, b),
        lex_lt(b, c),
    ensures
        lex_lt(a, c),
    decreases a.len(),
{
    if a.len() == 0 {
        assert(c.len() > 0);
    } else {
        assert(b.len() > 0);
        assert(c.len() > 0);
        if a[0] == b[0] && b[0] == c[0] {
            lemma_lex_trans(a.drop_first(), b.drop_first(), c.drop_first());
        }
    }
}

/// The association a sequence of (key, value) pairs denotes; later pairs
/// win, though the index never stores a key twice.
spec fn pairs_map(es: Seq<(String, String)>) -> Map<Seq<char>, Seq<char>>
    decreases es.len(),
{
    if es.len() == 0 {
        Map::empty()
    } else {
        pairs_map(es.drop_last()).insert(es.last().0@, es.last().1@)
    }
}

spec fn keys_unique(es: Seq<(String, String)>) -> bool {
    forall|i: int, j: int|
        0 <= i < j < es.len() ==> (#[trigger] es[i]).0@ != (#[trigger] es[j]).0@
}

proof fn lemma_pairs_map_domain(es: Seq<(String, String)>, k: Seq<char>)
    ensures
        pairs_map(es).contains_key(k) <==> exists|i: int|
            0 <= i < es.len() && (#[trigger] es[i]).0@ == k,
    decreases es.len(),
{
    if es.len() > 0 {
        lemma_pairs_map_domain(es.drop_last(), k);
        if es.last().0@ == k {
            assert(es[es.len() - 1].0@ == k);
        } else {
            assert(forall|i: int|
                0 <= i < es.drop_last().len() ==> (#[trigger] es.drop_last()[i]) == es[i]);
            if pairs_map(es).contains_key(k) {
            } else {
                assert(forall|i: int|
                    0 <= i < es.len() - 1 ==> (#[trigger] es[i]) == es.drop_last()[i]);
            }
        }
    }
}

proof fn lemma_pairs_map_at(es: Seq<(String, String)>, i: int)
    requires
        keys_unique(es),
        0 <= i < es.len(),
    ensures
        pairs_map(es).contains_key(es[i].0@),
        pairs_map(es)[es[i].0@] == es[i].1@,
    decreases es.len(),
{
    if i == es.len() - 1 {
    } else {
        assert(es.drop_last()[i] == es[i]);
        assert(keys_unique(es.drop_last())) by {
            assert(forall|p: int, q: int|
                0 <= p < q < es.drop_last().len() ==> (#[trigger] es.drop_last()[p]) == es[p]
                    && (#[trigger] es.drop_last()[q]) == es[q]);
        }
        lemma_pairs_map_at(es.drop_last(), i);
        assert(es[i].0@ != es.last().0@) by {
            assert(es.last() == es[es.len() - 1]);
        }
    }
}

proof fn lemma_pairs_map_insert(es: Seq<(String, String)>, p: int, kv: (String, String))
    requires
        0 <= p <= es.len(),
        forall|i: int| 0 <= i < es.len() ==> (#[trigger] es[i]).0@ != kv.0@,
    ensures
        pairs_map(es.insert(p, kv)) == pairs_map(es).insert(kv.0@, kv.1@),
    decreases es.len(),
{
    let s2 = es.insert(p, kv);
    if p == es.len() {
        assert(s2.drop_last() =~= es);
        assert(s2.last() == kv);
    } else {
        assert(s2.last() == es.last()) by {
            assert(s2[s2.len() - 1] == es[es.len() - 1]);
        }
        assert(s2.drop_last() =~= es.drop_last().insert(p, kv));
        assert(forall|i: int|
            0 <= i < es.drop_last().len() ==> (#[trigger] es.drop_last()[i]) == es[i]);
        lemma_pairs_map_insert(es.drop_last(), p, kv);
        assert(es.last().0@ != kv.0@) by {
            assert(es.last() == es[es.len() - 1]);
        }
        assert(pairs_map(s2) == pairs_map(es.drop_last()).insert(kv.0@, kv.1@).insert(
            es.last().0@,
            es.last().1@,
        ));
        assert(pairs_map(es.drop_last()).insert(kv.0@, kv.1@).insert(es.last().0@, es.last().1@)
            =~= pairs_map(es.drop_last()).insert(es.last().0@, es.last().1@).insert(
            kv.0@,
            kv.1@,
        ));
    }
}

proof fn lemma_pairs_map_remove(es: Seq<(String, String)>, p: int)
    requires
        keys_unique(es),
        0 <= p < es.len(),
    ensures
        pairs_map(es.remove(p)) == pairs_map(es).remove(es[p].0@),
    decreases es.len(),
{
    let s2 = es.remove(p);
    if p == es.len() - 1 {
        assert(s2 =~= es.drop_last());
        lemma_pairs_map_domain(es.drop_last(), es[p].0@);
        assert(forall|i: int|
            0 <= i < es.drop_last().len() ==> (#[trigger] es.drop_last()[i]) == es[i]);
        assert(!pairs_map(es.drop_last()).contains_key(es[p].0@));
        assert(pairs_map(s2) =~= pairs_map(es).remove(es[p].0@));
    } else {
        assert(s2.last() == es.last()) by {
            assert(s2[s2.len() - 1] == es[es.len() - 1]);
        }
        assert(s2.drop_last() =~= es.drop_last().remove(p));
        assert(keys_unique(es.drop_last())) by {
            assert(forall|i: int|
                0 <= i < es.drop_last().len() ==> (#[trigger] es.drop_last()[i]) == es[i]);
        }
        assert(es.drop_last()[p] == es[p]);
        lemma_pairs_map_remove(es.drop_last(), p);
        assert(es.last().0@ != es[p].0@) by {
            assert(es.last() == es[es.len() - 1]);
        }
        assert(pairs_map(s2) == pairs_map(es.drop_last()).remove(es[p].0@).insert(
            es.last().0@,
            es.last().1@,
        ));
        assert(pairs_map(es.drop_last()).remove(es[p].0@).insert(es.last().0@, es.last().1@)
            =~= pairs_map(es.drop_last()).insert(es.last().0@, es.last().1@).remove(es[p].0@));
    }
}

/// True iff the characters of `a` order strictly below those of `b`.
pub fn str_lt(a: &str, b: &str) -> (r: bool)
    ensures
        r == lex_lt(a@, b@),
{
    let na = a.unicode_len();
    let nb = b.unicode_len();
    proof {
        assert(a@.skip(0) =~= a@);
        assert(b@.skip(0) =~= b@);
    }
    let mut i: usize = 0;
    while i < na && i < nb
        invariant
            i <= na,
            i <= nb,
            na == a@.len(),
            nb == b@.len(),
            lex_lt(a@, b@) == lex_lt(a@.skip(i as int), b@.skip(i as int)),
        decreases na - i,
    {
        let x = a.get_char(i);
        let y = b.get_char(i);
        proof {
            assert(a@.skip(i as int)[0] == a@[i as int]);
            assert(b@.skip(i as int)[0] == b@[i as int]);
            assert(a@.skip(i as int).drop_first() =~= a@.skip(i + 1));
            assert(b@.skip(i as int).drop_first() =~= b@.skip(i + 1));
        }
        if x != y {
            return (x as u32) < (y as u32);
        }
        i += 1;
    }
    proof {
        if i == nb {
            assert(b@.skip(i as int).len() == 0);
            assert(!lex_lt(a@.skip(i as int), b@.skip(i as int)));
        } else {
            assert(a@.skip(i as int).len() == 0);
            assert(b@.skip(i as int).len() > 0);
            assert(lex_lt(a@.skip(i as int), b@.skip(i as int)));
        }
    }
    na < nb
}

/// True iff the two strings have the same characters.
pub fn str_equal(a: &str, b: &str) -> (r: bool)
    ensures
        r == (a@ == b@),
{
    let na = a.unicode_len();
    let nb = b.unicode_len();
    if na != nb {
        return false;
    }
    let mut i: usize = 0;
    while i < na
        invariant
            i <= na,
            na == a@.len(),
            na == b@.len(),
            forall|j: int| 0 <= j < i ==> a@[j] == b@[j],
        decreases na - i,
    {
        if a.get_char(i) != b.get_char(i) {
            return false;
        }
        i += 1;
    }
    proof {
        assert(a@ =~= b@);
    }
    true
}

/// The key→value store: pairs kept in strictly ascending key order.
pub struct Index {
    entries: Vec<(String, String)>,
}

impl Index {
    /// Well-formed: keys strictly ascending, hence unique.
    pub closed spec fn wf(&self) -> bool {
        forall|i: int, j: int|
            0 <= i < j < self.entries@.len() ==> lex_lt(
                (#[trigger] self.entries@[i]).0@,
                (#[trigger] self.entries@[j]).0@,
            )
    }

    /// The association the index stores.
    pub closed spec fn as_map(&self) -> Map<Seq<char>, Seq<char>> {
        pairs_map(self.entries@)
    }

    /// The keys in scan order, ascending.
    pub closed spec fn keys_in_order(&self) -> Seq<Seq<char>> {
        self.entries@.map_values(|p: (String, String)| p.0@)
    }

    proof fn lemma_unique(&self)
        requires
            self.wf(),
        ensures
            keys_unique(self.entries@),
    {
        assert forall|i: int, j: int|
            0 <= i < j < self.entries@.len() implies (#[trigger] self.entries@[i]).0@ != (
        #[trigger] self.entries@[j]).0@ by {
            if self.entries@[i].0@ == self.entries@[j].0@ {
                assert(lex_lt(self.entries@[i].0@, self.entries@[j].0@));
                lemma_lex_irrefl(self.entries@[i].0@);
            }
        }
    }

    /// The scan lists exactly the stored keys, in strictly ascending order.
    pub proof fn lemma_scan_order(&self)
        requires
            self.wf(),
        ensures
            forall|i: int, j: int|
                0 <= i < j < self.keys_in_order().len() ==> lex_lt(
                    #[trigger] self.keys_in_order()[i],
                    #[trigger] self.keys_in_order()[j],
                ),
            forall|k: Seq<char>|
                self.as_map().contains_key(k) <==> #[trigger] self.keys_in_order().contains(k),
    {
        assert forall|k: Seq<char>|
            self.as_map().contains_key(k) <==> #[trigger] self.keys_in_order().contains(k) by {
            lemma_pairs_map_domain(self.entries@, k);
            if exists|i: int| 0 <= i < self.entries@.len() && (#[trigger] self.entries@[i]).0@
                == k {
                let i = choose|i: int|
                    0 <= i < self.entries@.len() && (#[trigger] self.entries@[i]).0@ == k;
                assert(self.keys_in_order()[i] == k);
            }
            if self.keys_in_order().contains(k) {
                let i = choose|i: int|
                    0 <= i < self.keys_in_order().len() && self.keys_in_order()[i] == k;
                assert(self.entries@[i].0@ == k);
            }
        }
    }

    /// An empty index.
    pub fn new() -> (r: Index)
        ensures
            r.wf(),
            r.as_map() == Map::<Seq<char>, Seq<char>>::empty(),
            r.keys_in_order() == Seq::<Seq<char>>::empty(),
    {
        let r = Index { entries: Vec::new() };
        proof {
            assert(r.keys_in_order() =~= Seq::<Seq<char>>::empty());
        }
        r
    }

    /// Drops everything.
    pub fn clear(&mut self)
        ensures
            final(self).wf(),
            final(self).as_map() == Map::<Seq<char>, Seq<char>>::empty(),
            final(self).keys_in_order() == Seq::<Seq<char>>::empty(),
    {
        self.entries.clear();
        proof {
            assert(self.keys_in_order() =~= Seq::<Seq<char>>::empty());
        }
    }

    /// How many keys are stored.
    pub fn len(&self) -> (r: usize)
        ensures
            r == self.keys_in_order().len(),
    {
        self.entries.len()
    }

    /// The key at a scan position.
    pub fn key_at(&self, i: usize) -> (r: &String)
        requires
            i < self.keys_in_order().len(),
        ensures
            r@ == self.keys_in_order()[i as int],
    {
        &self.entries[i].0
    }

    /// The value at a scan position.
    pub fn value_at(&self, i: usize) -> (r: &String)
        requires
            self.wf(),
            i < self.keys_in_order().len(),
        ensures
            self.as_map().contains_key(self.keys_in_order()[i as int]),
            r@ == self.as_map()[self.keys_in_order()[i as int]],
    {
        proof {
            self.lemma_unique();
            lemma_pairs_map_at(self.entries@, i as int);
        }
        &self.entries[i].1
    }

    /// The position where `key` stands or would be inserted: everything
    /// before it orders strictly below `key`.
    fn position_of(&self, key: &str) -> (p: usize)
        requires
            self.wf(),
        ensures
            p <= self.entries@.len(),
            forall|m: int| 0 <= m < p ==> lex_lt((#[trigger] self.entries@[m]).0@, key@),
            p < self.entries@.len() ==> !lex_lt(self.entries@[p as int].0@, key@),
    {
        let n = self.entries.len();
        let mut p: usize = 0;
        while p < n
            invariant
                p <= n,
                n == self.entries@.len(),
                forall|m: int| 0 <= m < p ==> lex_lt((#[trigger] self.entries@[m]).0@, key@),
            decreases n - p,
        {
            if !str_lt(self.entries[p].0.as_str(), key) {
                return p;
            }
            p += 1;
        }
        p
    }

    /// Looks a key up.
    pub fn get(&self, key: &str) -> (r: Option<&String>)
        requires
            self.wf(),
        ensures
            match r {
                Some(v) => self.as_map().contains_key(key@) && v@ == self.as_map()[key@],
                None => !self.as_map().contains_key(key@),
            },
    {
        let n = self.entries.len();
        let mut i: usize = 0;
        while i < n
            invariant
                i <= n,
                self.wf(),
                n == self.entries@.len(),
                forall|m: int| 0 <= m < i ==> (#[trigger] self.entries@[m]).0@ != key@,
            decreases n - i,
        {
            if str_equal(self.entries[i].0.as_str(), key) {
                proof {
                    self.lemma_unique();
                    lemma_pairs_map_at(self.entries@, i as int);
                }
                return Some(&self.entries[i].1);
            }
            i += 1;
        }
        proof {
            lemma_pairs_map_domain(self.entries@, key@);
        }
        None
    }

    /// Stores a value under a key, replacing any previous value.
    pub fn put(&mut self, key: &str, value: String)
        requires
            old(self).wf(),
        ensures
            final(self).wf(),
            final(self).as_map() == old(self).as_map().insert(key@, value@),
            final(self).keys_in_order() == if old(self).as_map().contains_key(key@) {
                old(self).keys_in_order()
            } else {
                old(self).keys_in_order().insert(
                    lex_position(old(self).keys_in_order(), key@),
                    key@,
                )
            },
    {
        let p = self.position_of(key);
        let is_same = p < self.entries.len() && str_equal(self.entries[p].0.as_str(), key);
        if is_same {
            proof {
                self.lemma_unique();
                lemma_pairs_map_at(self.entries@, p as int);
            }
            let ghost before = self.entries@;
            let pair = (key.to_owned(), value);
            let _ = self.entries.remove(p);
            self.entries.insert(p, pair);
            proof {
                assert(self.entries@ =~= before.remove(p as int).insert(p as int, (
                    self.entries@[p as int].0,
                    self.entries@[p as int].1,
                )));
                lemma_pairs_map_remove(before, p as int);
                assert(forall|i: int|
                    0 <= i < before.remove(p as int).len() ==> (#[trigger] before.remove(
                        p as int,
                    )[i]).0@ != key@) by {
                    assert(forall|i: int|
                        0 <= i < before.remove(p as int).len() ==> #[trigger] before.remove(
                            p as int,
                        )[i] == if i < p { before[i] } else { before[i + 1] });
                }
                lemma_pairs_map_insert(before.remove(p as int), p as int, self.entries@[p as int]);
                assert(self.as_map() =~= old(self).as_map().insert(key@, value@));
                assert(self.wf()) by {
                    assert(forall|i: int|
                        0 <= i < self.entries@.len() && i != p ==> (#[trigger] self.entries@[i])
                            == before[i]);
                    assert(self.entries@[p as int].0@ == before[p as int].0@);
                }
                assert(self.keys_in_order() =~= old(self).keys_in_order());
                lemma_pairs_map_at(before, p as int);
            }
        } else {
            proof {
                self.lemma_unique();
                lemma_pairs_map_domain(self.entries@, key@);
                assert forall|i: int|
                    0 <= i < self.entries@.len() implies (#[trigger] self.entries@[i]).0@
                    != key@ by {
                    if i < p {
                        assert(lex_lt(self.entries@[i].0@, key@));
                        if self.entries@[i].0@ == key@ {
                            lemma_lex_irrefl(key@);
                        }
                    } else {
                        assert(!lex_lt(self.entries@[p as int].0@, key@));
                        if self.entries@[i].0@ == key@ {
                            if i > p {
                                assert(lex_lt(self.entries@[p as int].0@, self.entries@[i].0@));
                            } else {
                                lemma_lex_connected(self.entries@[p as int].0@, key@);
                                lemma_lex_irrefl(key@);
                            }
                        }
                    }
                }
            }
            let ghost before = self.entries@;
            let pair = (key.to_owned(), value);
            self.entries.insert(p, pair);
            proof {
                lemma_pairs_map_insert(before, p as int, self.entries@[p as int]);
                assert(self.as_map() =~= old(self).as_map().insert(key@, value@));
                assert(self.wf()) by {
                    if p < before.len() {
                        assert(!lex_lt(before[p as int].0@, key@));
                        assert(before[p as int].0@ != key@);
                        lemma_lex_connected_helper(key@, before[p as int].0@);
                    }
                    assert forall|i: int, j: int|
                        0 <= i < j < self.entries@.len() implies lex_lt(
                        (#[trigger] self.entries@[i]).0@,
                        (#[trigger] self.entries@[j]).0@,
                    ) by {
                        let ev = self.entries@;
                        if i < p && j == p {
                        } else if i == p && j > p {
                            assert(ev[j] == before[j - 1]);
                            if j - 1 > p {
                                assert(lex_lt(before[p as int].0@, before[j - 1].0@));
                                lemma_lex_trans(key@, before[p as int].0@, before[j - 1].0@);
                            }
                        } else if i < p && j > p {
                            assert(ev[i] == before[i]);
                            assert(ev[j] == before[j - 1]);
                            if j - 1 == p {
                                assert(lex_lt(before[i].0@, key@));
                                assert(lex_lt(key@, before[p as int].0@));
                                lemma_lex_trans(before[i].0@, key@, before[p as int].0@);
                            }
                        } else if i > p && j > p {
                            assert(ev[i] == before[i - 1]);
                            assert(ev[j] == before[j - 1]);
                        } else if i < p && j < p {
                            assert(ev[i] == before[i]);
                            assert(ev[j] == before[j]);
                        }
                    }
                }
                assert(self.keys_in_order() =~= old(self).keys_in_order().insert(
                    p as int,
                    key@,
                ));
                assert(p as int == lex_position(old(self).keys_in_order(), key@)) by {
                    lemma_lex_position(old(self).keys_in_order(), key@, p as int);
                }
            }
        }
    }

    /// Removes a key; a no-op when it is absent.
    pub fn remove(&mut self, key: &str)
        requires
            old(self).wf(),
        ensures
            final(self).wf(),
            final(self).as_map() == old(self).as_map().remove(key@),
            final(self).keys_in_order() == old(self).keys_in_order().remove_value(key@),
    {
        let p = self.position_of(key);
        let found = p < self.entries.len() && str_equal(self.entries[p].0.as_str(), key);
        if found {
            proof {
                self.lemma_unique();
            }
            let ghost before = self.entries@;
            let _ = self.entries.remove(p);
            proof {
                lemma_pairs_map_remove(before, p as int);
                assert(self.as_map() =~= old(self).as_map().remove(key@));
                assert(self.wf()) by {
                    assert(forall|i: int|
                        0 <= i < self.entries@.len() ==> (#[trigger] self.entries@[i]) == if i
                            < p {
                            before[i]
                        } else {
                            before[i + 1]
                        });
                }
                assert(old(self).keys_in_order()[p as int] == key@);
                assert(forall|m: int|
                    0 <= m < p ==> #[trigger] old(self).keys_in_order()[m] == before[m].0@);
                assert forall|m: int| 0 <= m < p implies #[trigger] old(self).keys_in_order()[m]
                    != key@ by {
                    assert(lex_lt(before[m].0@, key@));
                    if before[m].0@ == key@ {
                        lemma_lex_irrefl(key@);
                    }
                }
                assert(old(self).keys_in_order().index_of_first(key@) == Some(p as int)) by {
                    old(self).keys_in_order().index_of_first_ensures(key@);
                    assert(old(self).keys_in_order().contains(key@));
                    let q = old(self).keys_in_order().index_of_first(key@).unwrap();
                    if q < p {
                        assert(old(self).keys_in_order()[q] != key@);
                    }
                    if q > p {
                        assert(old(self).keys_in_order()[p as int] != key@);
                    }
                }
                assert(self.keys_in_order() =~= old(self).keys_in_order().remove(p as int));
            }
        } else {
            proof {
                self.lemma_unique();
                lemma_pairs_map_domain(self.entries@, key@);
                assert forall|i: int|
                    0 <= i < self.entries@.len() implies (#[trigger] self.entries@[i]).0@
                    != key@ by {
                    if i < p {
                        if self.entries@[i].0@ == key@ {
                            lemma_lex_irrefl(key@);
                        }
                    } else if i == p {
                    } else {
                        if self.entries@[i].0@ == key@ {
                            assert(!lex_lt(self.entries@[p as int].0@, key@));
                            assert(lex_lt(self.entries@[p as int].0@, self.entries@[i].0@));
                        }
                    }
                }
                assert(!self.as_map().contains_key(key@));
                assert(self.as_map() =~= old(self).as_map().remove(key@));
                assert(forall|m: int|
                    0 <= m < self.keys_in_order().len()
                        ==> #[trigger] self.keys_in_order()[m] == self.entries@[m].0@);
                assert(!self.keys_in_order().contains(key@));
                assert(self.keys_in_order().index_of_first(key@) == None::<int>) by {
                    self.keys_in_order().index_of_first_ensures(key@);
                }
                assert(self.keys_in_order() =~= old(self).keys_in_order().remove_value(key@));
            }
        }
    }
}

/// Nothing orders strictly below itself.
proof fn lemma_lex_irrefl(a: Seq<char>)
    ensures
        !lex_lt(a, a),
    decreases a.len(),
{
    if a.len() > 0 {
        lemma_lex_irrefl(a.drop_first());
    }
}

/// Of two distinct strings, one orders strictly below the other.
proof fn lemma_lex_connected_helper(a: Seq<char>, b: Seq<char>)
    requires
        a != b,
        !lex_lt(b, a),
    ensures
        lex_lt(a, b),
{
    if !lex_lt(a, b) {
        lemma_lex_connected(a, b);
    }
}

/// The position in an ascending key list where `key` would be inserted.
pub open spec fn lex_position(keys: Seq<Seq<char>>, key: Seq<char>) -> int
    decreases keys.len(),
{
    if keys.len() == 0 {
        0
    } else if !lex_lt(keys[0], key) {
        0
    } else {
        1 + lex_position(keys.drop_first(), key)
    }
}

proof fn lemma_lex_position(keys: Seq<Seq<char>>, key: Seq<char>, p: int)
    requires
        0 <= p <= keys.len(),
        forall|m: int| 0 <= m < p ==> lex_lt(#[trigger] keys[m], key),
        p < keys.len() ==> !lex_lt(keys[p], key),
    ensures
        lex_position(keys, key) == p,
    decreases p,
{
    if p == 0 {
    } else {
        assert(lex_lt(keys[0], key));
        assert(forall|m: int| 0 <= m < p - 1 ==> #[trigger] keys.drop_first()[m] == keys[m + 1]);
        lemma_lex_position(keys.drop_first(), key, p - 1);
    }
}

} // verus!
