//! The header mapping: unique lower-cased keys, held sorted by the
//! lexicographic order on byte strings so that serialization is
//! deterministic by construction. Inserting an existing key overwrites its
//! value (last write wins).

use vstd::prelude::*;

use crate::wire::{lemma_lex_asym, lemma_lex_irrefl, lemma_lex_trans, lex_lt};

verus! {

/// The mathematical content of a header mapping: key/value pairs sorted
/// strictly by key.
pub open spec fn sorted_keys(h: Seq<(Seq<u8>, Seq<u8>)>) -> bool {
    forall|i: int, j: int|
        0 <= i < j < h.len() ==> lex_lt((#[trigger] h[i]).0, (#[trigger] h[j]).0)
}

/// Value stored under `k`, if any.
pub open spec fn lookup(h: Seq<(Seq<u8>, Seq<u8>)>, k: Seq<u8>) -> Option<Seq<u8>>
    decreases h.len(),
{
    if h.len() == 0 {
        None
    } else if h[0].0 == k {
        Some(h[0].1)
    } else {
        lookup(h.skip(1), k)
    }
}

/// Insert `k = v`, keeping the pairs sorted by key; an equal key is
/// overwritten.
pub open spec fn insert_pair(h: Seq<(Seq<u8>, Seq<u8>)>, k: Seq<u8>, v: Seq<u8>) -> Seq<
    (Seq<u8>, Seq<u8>),
>
    decreases h.len(),
{
    if h.len() == 0 {
        seq![(k, v)]
    } else if lex_lt(k, h[0].0) {
        seq![(k, v)] + h
    } else if k == h[0].0 {
        seq![(k, v)] + h.skip(1)
    } else {
        seq![h[0]] + insert_pair(h.skip(1), k, v)
    }
}

/// Every key of the inserted map is a key of the old map or the new key.
pub proof fn lemma_insert_pair_keys(h: Seq<(Seq<u8>, Seq<u8>)>, k: Seq<u8>, v: Seq<u8>)
    ensures
        forall|i: int|
            0 <= i < insert_pair(h, k, v).len() ==> ((#[trigger] insert_pair(h, k, v)[i]).0 == k
                || exists|j: int| 0 <= j < h.len() && (#[trigger] h[j]).0 == insert_pair(h, k, v)[i].0),
    decreases h.len(),
{
    if h.len() == 0 {
    } else if lex_lt(k, h[0].0) {
    } else if k == h[0].0 {
        assert forall|i: int| 0 <= i < insert_pair(h, k, v).len() implies ((#[trigger] insert_pair(
            h,
            k,
            v,
        )[i]).0 == k || exists|j: int| 0 <= j < h.len() && (#[trigger] h[j]).0 == insert_pair(
            h,
            k,
            v,
        )[i].0) by {
            if i > 0 {
                assert(insert_pair(h, k, v)[i] == h.skip(1)[i - 1]);
                assert(h[i].0 == insert_pair(h, k, v)[i].0);
            }
        }
    } else {
        lemma_insert_pair_keys(h.skip(1), k, v);
        let r = insert_pair(h, k, v);
        assert forall|i: int| 0 <= i < r.len() implies ((#[trigger] r[i]).0 == k || exists|j: int|
            0 <= j < h.len() && (#[trigger] h[j]).0 == r[i].0) by {
            if i == 0 {
                assert(h[0].0 == r[0].0);
            } else {
                assert(r[i] == insert_pair(h.skip(1), k, v)[i - 1]);
                if insert_pair(h.skip(1), k, v)[i - 1].0 != k {
                    let j = choose|j: int|
                        0 <= j < h.skip(1).len() && (#[trigger] h.skip(1)[j]).0 == insert_pair(
                            h.skip(1),
                            k,
                            v,
                        )[i - 1].0;
                    assert(h[j + 1].0 == r[i].0);
                }
            }
        }
    }
}

/// Inserting keeps the pairs sorted.
pub proof fn lemma_insert_pair_sorted(h: Seq<(Seq<u8>, Seq<u8>)>, k: Seq<u8>, v: Seq<u8>)
    requires
        sorted_keys(h),
    ensures
        sorted_keys(insert_pair(h, k, v)),
    decreases h.len(),
{
    if h.len() == 0 {
    } else if lex_lt(k, h[0].0) {
        let r = seq![(k, v)] + h;
        assert forall|i: int, j: int| 0 <= i < j < r.len() implies lex_lt(
            (#[trigger] r[i]).0,
            (#[trigger] r[j]).0,
        ) by {
            if i == 0 {
                if j > 1 {
                    lemma_lex_trans(k, h[0].0, h[j - 1].0);
                }
            } else {
                assert(r[i] == h[i - 1] && r[j] == h[j - 1]);
            }
        }
    } else if k == h[0].0 {
        let r = seq![(k, v)] + h.skip(1);
        assert forall|i: int, j: int| 0 <= i < j < r.len() implies lex_lt(
            (#[trigger] r[i]).0,
            (#[trigger] r[j]).0,
        ) by {
            if i == 0 {
                assert(r[j] == h.skip(1)[j - 1]);
                assert(h.skip(1)[j - 1] == h[j]);
            } else {
                assert(r[i] == h[i] && r[j] == h[j]);
            }
        }
    } else {
        assert(lex_lt(h[0].0, k)) by {
            lemma_lex_total(k, h[0].0);
        }
        assert forall|i: int, j: int| 0 <= i < j < h.skip(1).len() implies lex_lt(
            (#[trigger] h.skip(1)[i]).0,
            (#[trigger] h.skip(1)[j]).0,
        ) by {
            assert(h.skip(1)[i] == h[i + 1] && h.skip(1)[j] == h[j + 1]);
        }
        lemma_insert_pair_sorted(h.skip(1), k, v);
        lemma_insert_pair_keys(h.skip(1), k, v);
        let t = insert_pair(h.skip(1), k, v);
        let r = seq![h[0]] + t;
        assert forall|i: int, j: int| 0 <= i < j < r.len() implies lex_lt(
            (#[trigger] r[i]).0,
            (#[trigger] r[j]).0,
        ) by {
            if i == 0 {
                assert(r[j] == t[j - 1]);
                if t[j - 1].0 == k {
                } else {
                    let m = choose|m: int|
                        0 <= m < h.skip(1).len() && (#[trigger] h.skip(1)[m]).0 == t[j - 1].0;
                    assert(h.skip(1)[m] == h[m + 1]);
                    assert(lex_lt(h[0].0, h[m + 1].0));
                }
            } else {
                assert(r[i] == t[i - 1] && r[j] == t[j - 1]);
            }
        }
    }
}

/// Inserting a key greater than every held key appends at the end.
pub proof fn lemma_insert_pair_append(h: Seq<(Seq<u8>, Seq<u8>)>, k: Seq<u8>, v: Seq<u8>)
    requires
        forall|i: int| 0 <= i < h.len() ==> lex_lt((#[trigger] h[i]).0, k),
    ensures
        insert_pair(h, k, v) == h.push((k, v)),
    decreases h.len(),
{
    if h.len() == 0 {
        assert(insert_pair(h, k, v) =~= h.push((k, v)));
    } else {
        lemma_lex_asym(h[0].0, k);
        assert forall|i: int| 0 <= i < h.skip(1).len() implies lex_lt(
            (#[trigger] h.skip(1)[i]).0,
            k,
        ) by {
            assert(h.skip(1)[i] == h[i + 1]);
        }
        lemma_insert_pair_append(h.skip(1), k, v);
        assert(seq![h[0]] + h.skip(1).push((k, v)) =~= h.push((k, v)));
    }
}

/// The lexicographic order is total: two distinct keys are ordered.
pub proof fn lemma_lex_total(a: Seq<u8>, b: Seq<u8>)
    ensures
        lex_lt(a, b) || lex_lt(b, a) || a == b,
    decreases a.len() + b.len(),
{
    if a.len() == 0 && b.len() == 0 {
        assert(a =~= b);
    } else if a.len() > 0 && b.len() > 0 && a[0] == b[0] {
        lemma_lex_total(a.skip(1), b.skip(1));
        if a.skip(1) == b.skip(1) {
            assert(a =~= seq![a[0]] + a.skip(1));
            assert(b =~= seq![b[0]] + b.skip(1));
        }
    }
}

/// After an insert, the inserted key holds the new value.
pub proof fn lemma_lookup_insert_same(h: Seq<(Seq<u8>, Seq<u8>)>, k: Seq<u8>, v: Seq<u8>)
    ensures
        lookup(insert_pair(h, k, v), k) == Some(v),
    decreases h.len(),
{
    if h.len() == 0 {
        let r = seq![(k, v)];
        assert(r[0].0 == k);
    } else if lex_lt(k, h[0].0) {
        let r = seq![(k, v)] + h;
        assert(r[0].0 == k);
    } else if k == h[0].0 {
        let r = seq![(k, v)] + h.skip(1);
        assert(r[0].0 == k);
    } else {
        lemma_lookup_insert_same(h.skip(1), k, v);
        let r = seq![h[0]] + insert_pair(h.skip(1), k, v);
        assert(r[0] == h[0]);
        assert(r.skip(1) =~= insert_pair(h.skip(1), k, v));
    }
}

/// After an insert, every other key keeps its old value.
pub proof fn lemma_lookup_insert_other(
    h: Seq<(Seq<u8>, Seq<u8>)>,
    k: Seq<u8>,
    v: Seq<u8>,
    q: Seq<u8>,
)
    requires
        q != k,
    ensures
        lookup(insert_pair(h, k, v), q) == lookup(h, q),
    decreases h.len(),
{
    if h.len() == 0 {
        let r = seq![(k, v)];
        assert(r[0].0 != q);
        assert(r.skip(1).len() == 0);
        assert(lookup(r.skip(1), q) is None);
    } else if lex_lt(k, h[0].0) {
        let r = seq![(k, v)] + h;
        assert(r[0].0 != q);
        assert(r.skip(1) =~= h);
    } else if k == h[0].0 {
        let r = seq![(k, v)] + h.skip(1);
        assert(r[0].0 != q);
        assert(r.skip(1) =~= h.skip(1));
    } else {
        lemma_lookup_insert_other(h.skip(1), k, v, q);
        let r = seq![h[0]] + insert_pair(h.skip(1), k, v);
        assert(r[0] == h[0]);
        assert(r.skip(1) =~= insert_pair(h.skip(1), k, v));
    }
}

/// Result of comparing two byte-string keys.
pub enum KeyOrder {
    Before,
    Same,
    After,
}

/// Three-way lexicographic comparison of byte strings.
pub fn key_cmp(a: &[u8], b: &[u8]) -> (r: KeyOrder)
    ensures
        match r {
            KeyOrder::Before => lex_lt(a@, b@),
            KeyOrder::Same => a@ == b@,
            KeyOrder::After => lex_lt(b@, a@),
        },
{
    let mut i: usize = 0;
    proof {
        assert(a@.skip(0) =~= a@);
        assert(b@.skip(0) =~= b@);
    }
    loop
        invariant
            i <= a@.len(),
            i <= b@.len(),
            forall|m: int| 0 <= m < i ==> a@[m] == b@[m],
            lex_lt(a@, b@) == lex_lt(a@.skip(i as int), b@.skip(i as int)),
            lex_lt(b@, a@) == lex_lt(b@.skip(i as int), a@.skip(i as int)),
        ensures
            ({
                let ra = a@.skip(i as int);
                let rb = b@.skip(i as int);
                i <= a@.len() && i <= b@.len() && (forall|m: int| 0 <= m < i ==> a@[m] == b@[m])
                    && lex_lt(a@, b@) == lex_lt(ra, rb) && lex_lt(b@, a@) == lex_lt(rb, ra) && (
                ra.len() == 0 || rb.len() == 0 || ra[0] != rb[0])
            }),
        decreases a@.len() - i,
    {
        if i == a.len() || i == b.len() {
            break ;
        }
        let x = *vstd::slice::slice_index_get(a, i);
        let y = *vstd::slice::slice_index_get(b, i);
        if x != y {
            proof {
                assert(a@.skip(i as int)[0] == a@[i as int]);
                assert(b@.skip(i as int)[0] == b@[i as int]);
            }
            break ;
        }
        proof {
            assert(a@.skip(i as int)[0] == a@[i as int]);
            assert(b@.skip(i as int)[0] == b@[i as int]);
            assert(a@.skip(i as int).skip(1) =~= a@.skip(i as int + 1));
            assert(b@.skip(i as int).skip(1) =~= b@.skip(i as int + 1));
        }
        i = i + 1;
    }
    proof {
        assert(a@.skip(i as int).len() == a@.len() - i);
        assert(b@.skip(i as int).len() == b@.len() - i);
    }
    if i < a.len() && i < b.len() {
        let x = *vstd::slice::slice_index_get(a, i);
        let y = *vstd::slice::slice_index_get(b, i);
        proof {
            assert(a@.skip(i as int)[0] == a@[i as int]);
            assert(b@.skip(i as int)[0] == b@[i as int]);
        }
        if x < y {
            KeyOrder::Before
        } else {
            KeyOrder::After
        }
    } else if i < b.len() {
        KeyOrder::Before
    } else if i < a.len() {
        KeyOrder::After
    } else {
        proof {
            assert(a@ =~= b@);
        }
        KeyOrder::Same
    }
}

/// A header mapping with unique lower-cased keys, sorted by key.
#[derive(Debug, PartialEq, Eq)]
pub struct Headers {
    pairs: Vec<(Vec<u8>, Vec<u8>)>,
}

impl View for Headers {
    type V = Seq<(Seq<u8>, Seq<u8>)>;

    closed spec fn view(&self) -> Seq<(Seq<u8>, Seq<u8>)> {
        self.pairs@.map_values(|p: (Vec<u8>, Vec<u8>)| (p.0@, p.1@))
    }
}

impl Headers {
    /// Well-formed: the keys are strictly sorted, hence unique.
    pub open spec fn wf(&self) -> bool {
        sorted_keys(self@)
    }

    /// The number of distinct header names held.
    pub fn len(&self) -> (n: usize)
        ensures
            n == self@.len(),
    {
        self.pairs.len()
    }

    /// The empty mapping.
    pub fn new() -> (h: Headers)
        ensures
            h@ == Seq::<(Seq<u8>, Seq<u8>)>::empty(),
            h.wf(),
    {
        let h = Headers { pairs: Vec::new() };
        proof {
            assert(h@ =~= Seq::<(Seq<u8>, Seq<u8>)>::empty());
        }
        h
    }

    /// Insert `k = v`; an equal key is overwritten (last write wins).
    pub fn insert(&mut self, k: Vec<u8>, v: Vec<u8>)
        requires
            old(self).wf(),
        ensures
            final(self)@ == insert_pair(old(self)@, k@, v@),
            final(self).wf(),
    {
        proof {
            lemma_insert_pair_sorted(old(self)@, k@, v@);
        }
        let ghost h0 = self@;
        let mut i: usize = 0;
        proof {
            assert(h0.skip(0) =~= h0);
            assert(h0.subrange(0, 0) + insert_pair(h0, k@, v@) =~= insert_pair(h0, k@, v@));
        }
        loop
            invariant
                h0 == old(self)@,
                self@ == h0,
                sorted_keys(h0),
                sorted_keys(insert_pair(h0, k@, v@)),
                i <= h0.len(),
                self.pairs@.len() == h0.len(),
                forall|m: int| 0 <= m < i ==> lex_lt((#[trigger] h0[m]).0, k@),
                insert_pair(h0, k@, v@) == h0.subrange(0, i as int) + insert_pair(
                    h0.skip(i as int),
                    k@,
                    v@,
                ),
            decreases h0.len() - i,
        {
            if i == self.pairs.len() {
                proof {
                    assert(h0.skip(i as int) =~= Seq::<(Seq<u8>, Seq<u8>)>::empty());
                    assert(insert_pair(h0.skip(i as int), k@, v@) == seq![(k@, v@)]);
                }
                self.pairs.push((k, v));
                proof {
                    assert(self@ =~= h0.subrange(0, i as int) + seq![(k@, v@)]);
                    assert(h0.subrange(0, i as int) =~= h0);
                    assert(h0 == old(self)@);
                    assert(self@ == insert_pair(old(self)@, k@, v@));
                }
                return ;
            }
            let ord = key_cmp(self.pairs[i].0.as_slice(), k.as_slice());
            proof {
                assert(self@[i as int] == (self.pairs@[i as int].0@, self.pairs@[i as int].1@));
                assert(h0[i as int].0 == self.pairs@[i as int].0@);
                assert(h0.skip(i as int)[0] == h0[i as int]);
            }
            match ord {
                KeyOrder::Before => {
                    proof {
                        assert(h0.skip(i as int).skip(1) =~= h0.skip(i as int + 1));
                        assert(h0.subrange(0, i as int + 1) =~= h0.subrange(0, i as int) + seq![
                            h0[i as int],
                        ]);
                        assert(insert_pair(h0.skip(i as int), k@, v@) == seq![h0[i as int]]
                            + insert_pair(h0.skip(i as int + 1), k@, v@)) by {
                            lemma_lex_asym(h0[i as int].0, k@);
                        }
                        assert(h0.subrange(0, i as int) + insert_pair(h0.skip(i as int), k@, v@)
                            =~= h0.subrange(0, i as int + 1) + insert_pair(
                            h0.skip(i as int + 1),
                            k@,
                            v@,
                        ));
                    }
                    i = i + 1;
                },
                KeyOrder::Same => {
                    proof {
                        assert(h0[i as int].0 == k@);
                        assert(insert_pair(h0.skip(i as int), k@, v@) == seq![(k@, v@)] + h0.skip(
                            i as int,
                        ).skip(1)) by {
                            lemma_lex_irrefl(k@);
                        }
                        assert(h0.skip(i as int).skip(1) =~= h0.skip(i as int + 1));
                    }
                    self.pairs.remove(i);
                    self.pairs.insert(i, (k, v));
                    proof {
                        assert(self@ =~= h0.subrange(0, i as int) + (seq![(k@, v@)] + h0.skip(
                            i as int + 1,
                        )));
                        assert(h0 == old(self)@);
                        assert(self@ == insert_pair(old(self)@, k@, v@));
                    }
                    return ;
                },
                KeyOrder::After => {
                    proof {
                        assert(lex_lt(k@, h0[i as int].0));
                        assert(insert_pair(h0.skip(i as int), k@, v@) == seq![(k@, v@)] + h0.skip(
                            i as int,
                        ));
                    }
                    self.pairs.insert(i, (k, v));
                    proof {
                        assert(self@ =~= h0.subrange(0, i as int) + (seq![(k@, v@)] + h0.skip(
                            i as int,
                        )));
                        assert(h0 == old(self)@);
                        assert(self@ == insert_pair(old(self)@, k@, v@));
                    }
                    return ;
                },
            }
        }
    }

    /// Value stored under exactly the name `k`, if any.
    pub fn get(&self, k: &[u8]) -> (r: Option<&Vec<u8>>)
        ensures
            match r {
                Some(v) => lookup(self@, k@) == Some(v@),
                None => lookup(self@, k@) is None,
            },
    {
        let mut i: usize = 0;
        proof {
            assert(self@.skip(0) =~= self@);
        }
        loop
            invariant
                i <= self@.len(),
                self.pairs@.len() == self@.len(),
                lookup(self@, k@) == lookup(self@.skip(i as int), k@),
            ensures
                i <= self@.len(),
                if i < self@.len() {
                    self@[i as int].0 == k@ && lookup(self@, k@) == Some(self@[i as int].1)
                } else {
                    lookup(self@, k@) is None
                },
            decreases self@.len() - i,
        {
            if i == self.pairs.len() {
                proof {
                    assert(self@.skip(i as int) =~= Seq::<(Seq<u8>, Seq<u8>)>::empty());
                }
                break ;
            }
            let ord = key_cmp(self.pairs[i].0.as_slice(), k);
            proof {
                assert(self@[i as int] == (self.pairs@[i as int].0@, self.pairs@[i as int].1@));
                assert(self@.skip(i as int)[0] == self@[i as int]);
                assert(self@.skip(i as int).skip(1) =~= self@.skip(i as int + 1));
            }
            match ord {
                KeyOrder::Same => {
                    break ;
                },
                _ => {
                    proof {
                        assert(self@[i as int].0 != k@) by {
                            match ord {
                                KeyOrder::Before => lemma_lex_asym(self@[i as int].0, k@),
                                KeyOrder::After => lemma_lex_asym(k@, self@[i as int].0),
                                KeyOrder::Same => {},
                            }
                        }
                    }
                    i = i + 1;
                },
            }
        }
        if i < self.pairs.len() {
            proof {
                assert(self@[i as int].1 == self.pairs@[i as int].1@);
            }
            Some(&self.pairs[i].1)
        } else {
            None
        }
    }

    /// The pair at position `i`, in key order: a borrowed view for walking
    /// the mapping.
    pub fn pair_at(&self, i: usize) -> (r: (&Vec<u8>, &Vec<u8>))
        requires
            i < self@.len(),
        ensures
            r.0@ == self@[i as int].0,
            r.1@ == self@[i as int].1,
    {
        proof {
            assert(self@[i as int] == (self.pairs@[i as int].0@, self.pairs@[i as int].1@));
        }
        (&self.pairs[i].0, &self.pairs[i].1)
    }
}

} // verus!
