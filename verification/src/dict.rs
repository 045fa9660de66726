//! A byte-string to byte-string table with last-write-wins insertion, the
//! shape behind a request's headers, cookies and query parameters and a
//! response's headers. Entries keep their insertion order, keys stay unique,
//! and `insert` on a present key replaces the value in place.
use vstd::prelude::*;

verus! {

/// The value of the first entry whose key is `k`, scanning from the front.
/// With unique keys this is the value of the one entry for `k`.
pub open spec fn lookup(es: Seq<(Seq<u8>, Seq<u8>)>, k: Seq<u8>) -> Option<Seq<u8>>
    decreases es.len(),
{
    if es.len() == 0 {
        None
    } else if es[0].0 == k {
        Some(es[0].1)
    } else {
        lookup(es.drop_first(), k)
    }
}

/// Last-write-wins insertion on an entry sequence: a present key keeps its
/// position and gets the new value, an absent key is appended.
pub open spec fn spec_insert(es: Seq<(Seq<u8>, Seq<u8>)>, k: Seq<u8>, v: Seq<u8>) -> Seq<
    (Seq<u8>, Seq<u8>),
>
    decreases es.len(),
{
    if es.len() == 0 {
        seq![(k, v)]
    } else if es[0].0 == k {
        seq![(k, v)] + es.drop_first()
    } else {
        seq![es[0]] + spec_insert(es.drop_first(), k, v)
    }
}

/// What `spec_insert` does to lookups: the inserted key now yields the new
/// value, every other key is untouched.
pub proof fn lemma_lookup_spec_insert(es: Seq<(Seq<u8>, Seq<u8>)>, k: Seq<u8>, v: Seq<u8>)
    ensures
        lookup(spec_insert(es, k, v), k) == Some(v),
        forall|k2: Seq<u8>| k2 != k ==> lookup(spec_insert(es, k, v), k2) == lookup(es, k2),
    decreases es.len(),
{
    let si = spec_insert(es, k, v);
    if es.len() == 0 {
        assert(si =~= seq![(k, v)]);
        assert(si[0] == (k, v));
        assert(si.drop_first() =~= Seq::<(Seq<u8>, Seq<u8>)>::empty());
        assert(lookup(si, k) == Some(v));
        assert forall|k2: Seq<u8>| k2 != k implies lookup(si, k2) == lookup(es, k2) by {
            assert(lookup(si, k2) == lookup(si.drop_first(), k2));
            assert(lookup(Seq::<(Seq<u8>, Seq<u8>)>::empty(), k2) is None);
            assert(es =~= Seq::<(Seq<u8>, Seq<u8>)>::empty());
        }
    } else if es[0].0 == k {
        assert(si == seq![(k, v)] + es.drop_first());
        assert(si[0] == (k, v));
        assert(si.drop_first() =~= es.drop_first());
        assert(lookup(si, k) == Some(v));
        assert forall|k2: Seq<u8>| k2 != k implies lookup(si, k2) == lookup(es, k2) by {
            assert(lookup(si, k2) == lookup(si.drop_first(), k2));
            assert(lookup(es, k2) == lookup(es.drop_first(), k2));
        }
    } else {
        assert(si == seq![es[0]] + spec_insert(es.drop_first(), k, v));
        assert(si[0] == es[0]);
        assert(si.drop_first() =~= spec_insert(es.drop_first(), k, v));
        lemma_lookup_spec_insert(es.drop_first(), k, v);
        assert(lookup(si, k) == Some(v));
        assert forall|k2: Seq<u8>| k2 != k implies lookup(si, k2) == lookup(es, k2) by {
            if es[0].0 == k2 {
            } else {
                assert(lookup(si, k2) == lookup(si.drop_first(), k2));
                assert(lookup(es, k2) == lookup(es.drop_first(), k2));
            }
        }
    }
}

/// `spec_insert` replaces in place at the first position whose key matches.
pub proof fn lemma_spec_insert_found(es: Seq<(Seq<u8>, Seq<u8>)>, k: Seq<u8>, v: Seq<u8>, j: int)
    requires
        0 <= j < es.len(),
        forall|i: int| 0 <= i < j ==> (#[trigger] es[i]).0 != k,
        es[j].0 == k,
    ensures
        spec_insert(es, k, v) == es.update(j, (k, v)),
    decreases j,
{
    if j == 0 {
        assert(spec_insert(es, k, v) =~= es.update(0, (k, v)));
    } else {
        let t = es.drop_first();
        assert(forall|i: int| 0 <= i < j - 1 ==> (#[trigger] t[i]).0 != k);
        lemma_spec_insert_found(t, k, v, j - 1);
        assert(seq![es[0]] + t.update(j - 1, (k, v)) =~= es.update(j, (k, v)));
    }
}

/// `spec_insert` appends when the key is absent.
pub proof fn lemma_spec_insert_absent(es: Seq<(Seq<u8>, Seq<u8>)>, k: Seq<u8>, v: Seq<u8>)
    requires
        forall|i: int| 0 <= i < es.len() ==> (#[trigger] es[i]).0 != k,
    ensures
        spec_insert(es, k, v) == es.push((k, v)),
    decreases es.len(),
{
    if es.len() == 0 {
        assert(spec_insert(es, k, v) =~= es.push((k, v)));
    } else {
        let t = es.drop_first();
        assert(forall|i: int| 0 <= i < t.len() ==> (#[trigger] t[i]).0 != k);
        lemma_spec_insert_absent(t, k, v);
        assert(seq![es[0]] + t.push((k, v)) =~= es.push((k, v)));
    }
}

pub open spec fn unique_keys(es: Seq<(Seq<u8>, Seq<u8>)>) -> bool {
    forall|i: int, j: int| 0 <= i < j < es.len() ==> (#[trigger] es[i]).0 != (#[trigger] es[j]).0
}

/// `lookup` is decided by the first position whose key matches.
pub proof fn lemma_lookup_at(es: Seq<(Seq<u8>, Seq<u8>)>, k: Seq<u8>, j: int)
    requires
        0 <= j <= es.len(),
        forall|i: int| 0 <= i < j ==> (#[trigger] es[i]).0 != k,
        j < es.len() ==> es[j].0 == k,
    ensures
        lookup(es, k) == if j == es.len() {
            None::<Seq<u8>>
        } else {
            Some(es[j].1)
        },
    decreases j, es.len(),
{
    if es.len() == 0 {
    } else if j == 0 {
        if j < es.len() {
        } else {
        }
    } else {
        let t = es.drop_first();
        assert(forall|i: int| 0 <= i < j - 1 ==> (#[trigger] t[i]).0 != k);
        lemma_lookup_at(t, k, j - 1);
    }
}

/// Appending an entry with a different key leaves a lookup unchanged.
pub proof fn lemma_lookup_push(es: Seq<(Seq<u8>, Seq<u8>)>, p: (Seq<u8>, Seq<u8>), k: Seq<u8>)
    requires
        k != p.0,
    ensures
        lookup(es.push(p), k) == lookup(es, k),
    decreases es.len(),
{
    if es.len() == 0 {
        assert(es.push(p)[0] == p);
        assert(es.push(p).drop_first() =~= Seq::<(Seq<u8>, Seq<u8>)>::empty());
        assert(lookup(Seq::<(Seq<u8>, Seq<u8>)>::empty(), k) is None);
        assert(es =~= Seq::<(Seq<u8>, Seq<u8>)>::empty());
    } else {
        assert(es.push(p)[0] == es[0]);
        if es[0].0 == k {
        } else {
            assert(es.push(p).drop_first() =~= es.drop_first().push(p));
            lemma_lookup_push(es.drop_first(), p, k);
        }
    }
}

/// Replacing the entry at `j` in place leaves other keys' lookups unchanged.
pub proof fn lemma_lookup_update_other(
    es: Seq<(Seq<u8>, Seq<u8>)>,
    j: int,
    p: (Seq<u8>, Seq<u8>),
    k: Seq<u8>,
)
    requires
        0 <= j < es.len(),
        es[j].0 == p.0,
        k != p.0,
    ensures
        lookup(es.update(j, p), k) == lookup(es, k),
    decreases es.len(),
{
    let es2 = es.update(j, p);
    if j == 0 {
        assert(es2[0] == p);
        assert(es2.drop_first() =~= es.drop_first());
    } else {
        assert(es2[0] == es[0]);
        if es[0].0 == k {
        } else {
            assert(es2.drop_first() =~= es.drop_first().update(j - 1, p));
            lemma_lookup_update_other(es.drop_first(), j - 1, p, k);
        }
    }
}

/// An insertion-ordered table of byte-string pairs with unique keys.
#[derive(Debug)]
pub struct Dict {
    items: Vec<(Vec<u8>, Vec<u8>)>,
}

impl Dict {
    /// The entries, oldest first, as sequences.
    pub closed spec fn entries(&self) -> Seq<(Seq<u8>, Seq<u8>)> {
        self.items@.map_values(|p: (Vec<u8>, Vec<u8>)| (p.0@, p.1@))
    }

    /// Well-formed: no key occurs twice.
    pub open spec fn wf(&self) -> bool {
        unique_keys(self.entries())
    }

    pub fn new() -> (d: Dict)
        ensures
            d.wf(),
            d.entries() == Seq::<(Seq<u8>, Seq<u8>)>::empty(),
    {
        let d = Dict { items: Vec::new() };
        proof {
            assert(d.entries() =~= Seq::<(Seq<u8>, Seq<u8>)>::empty());
        }
        d
    }

    pub fn len(&self) -> (n: usize)
        ensures
            n == self.entries().len(),
    {
        self.items.len()
    }

    /// The key of the entry at `i`.
    pub fn key_at(&self, i: usize) -> (r: &Vec<u8>)
        requires
            i < self.entries().len(),
        ensures
            r@ == self.entries()[i as int].0,
    {
        &self.items[i].0
    }

    /// The value of the entry at `i`.
    pub fn val_at(&self, i: usize) -> (r: &Vec<u8>)
        requires
            i < self.entries().len(),
        ensures
            r@ == self.entries()[i as int].1,
    {
        &self.items[i].1
    }

    /// The value stored under `k`, if any.
    pub fn get(&self, k: &[u8]) -> (r: Option<&Vec<u8>>)
        ensures
            match r {
                Some(v) => lookup(self.entries(), k@) == Some(v@),
                None => lookup(self.entries(), k@) is None,
            },
    {
        let mut i: usize = 0;
        while i < self.items.len()
            invariant
                0 <= i <= self.entries().len(),
                forall|j: int| 0 <= j < i ==> (#[trigger] self.entries()[j]).0 != k@,
            decreases self.entries().len() - i,
        {
            if crate::ascii::bytes_eq(self.items[i].0.as_slice(), k) {
                proof {
                    lemma_lookup_at(self.entries(), k@, i as int);
                }
                return Some(&self.items[i].1);
            }
            i += 1;
        }
        proof {
            lemma_lookup_at(self.entries(), k@, self.entries().len() as int);
        }
        None
    }

    /// Whether `k` is a key of the table.
    pub fn contains_key(&self, k: &[u8]) -> (r: bool)
        ensures
            r == (lookup(self.entries(), k@) is Some),
    {
        match self.get(k) {
            Some(_) => true,
            None => false,
        }
    }

    /// Stores `v` under `k`. A present key keeps its position and gets the
    /// new value; an absent key is appended at the end.
    pub fn insert(&mut self, k: Vec<u8>, v: Vec<u8>)
        requires
            old(self).wf(),
        ensures
            final(self).wf(),
            lookup(final(self).entries(), k@) == Some(v@),
            forall|k2: Seq<u8>| k2 != k@ ==> lookup(final(self).entries(), k2) == lookup(
                old(self).entries(),
                k2,
            ),
            lookup(old(self).entries(), k@) is None ==> final(self).entries() == old(
                self,
            ).entries().push((k@, v@)),
            lookup(old(self).entries(), k@) is Some ==> exists|j: int|
                0 <= j < old(self).entries().len() && (#[trigger] old(self).entries()[j]).0 == k@
                    && final(self).entries() == old(self).entries().update(j, (k@, v@)),
            final(self).entries() == spec_insert(old(self).entries(), k@, v@),
    {
        let ghost es0 = self.entries();
        let mut i: usize = 0;
        while i < self.items.len()
            invariant
                0 <= i <= self.entries().len(),
                self.entries() == es0,
                es0 == old(self).entries(),
                unique_keys(es0),
                forall|j: int| 0 <= j < i ==> (#[trigger] self.entries()[j]).0 != k@,
            decreases self.entries().len() - i,
        {
            if crate::ascii::bytes_eq(self.items[i].0.as_slice(), k.as_slice()) {
                proof {
                    lemma_lookup_at(es0, k@, i as int);
                }
                self.items[i] = (k, v);
                proof {
                    assert(self.entries() =~= es0.update(i as int, (k@, v@)));
                    assert forall|k2: Seq<u8>| k2 != k@ implies lookup(self.entries(), k2)
                        == lookup(es0, k2) by {
                        lemma_lookup_update_other(es0, i as int, (k@, v@), k2);
                    }
                    assert(forall|j: int|
                        0 <= j < self.entries().len() ==> (#[trigger] self.entries()[j]).0 == es0[
                            j
                        ].0);
                    lemma_lookup_at(self.entries(), k@, i as int);
                    lemma_spec_insert_found(es0, k@, v@, i as int);
                }
                return ;
            }
            i += 1;
        }
        proof {
            lemma_lookup_at(es0, k@, es0.len() as int);
        }
        self.items.push((k, v));
        proof {
            assert(self.entries() =~= es0.push((k@, v@)));
            assert forall|k2: Seq<u8>| k2 != k@ implies lookup(self.entries(), k2) == lookup(
                es0,
                k2,
            ) by {
                lemma_lookup_push(es0, (k@, v@), k2);
            }
            lemma_lookup_at(self.entries(), k@, es0.len() as int);
            lemma_spec_insert_absent(es0, k@, v@);
        }
    }

    /// An entry-for-entry copy of the table.
    pub fn duplicate(&self) -> (d: Dict)
        ensures
            d.entries() == self.entries(),
    {
        let mut items: Vec<(Vec<u8>, Vec<u8>)> = Vec::new();
        let mut i: usize = 0;
        while i < self.items.len()
            invariant
                0 <= i <= self.items@.len(),
                items@.len() == i,
                forall|j: int|
                    0 <= j < i ==> (#[trigger] items@[j]).0@ == self.items@[j].0@ && items@[j].1@
                        == self.items@[j].1@,
            decreases self.items@.len() - i,
        {
            let k = crate::ascii::sub_vec(self.items[i].0.as_slice(), 0, self.items[i].0.len());
            let v = crate::ascii::sub_vec(self.items[i].1.as_slice(), 0, self.items[i].1.len());
            proof {
                assert(k@ =~= self.items@[i as int].0@);
                assert(v@ =~= self.items@[i as int].1@);
            }
            items.push((k, v));
            i += 1;
        }
        let d = Dict { items };
        proof {
            assert(d.entries() =~= self.entries());
        }
        d
    }
}

} // verus!
