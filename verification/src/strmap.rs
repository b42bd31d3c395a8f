use vstd::prelude::*;

verus! {

/// An association-vector map from string keys to values: the verified
/// stand-in for a hash map keyed by vertex labels. Its view is a
/// `Map<Seq<char>, V>`; well-formed values hold each key at most once.
#[derive(Debug)]
pub struct StrMap<V> {
    pairs: Vec<(String, V)>,
}

/// Character-by-character string comparison, so that equality of labels
/// is available as equality of their views.
fn str_eq(a: &str, b: &str) -> (r: bool)
    ensures
        r == (a@ == b@),
{
    let na = a.unicode_len();
    let nb = b.unicode_len();
    if na != nb {
        return false;
    }
    let mut i: usize = 0;
    while i < na
        invariant
            i <= na,
            na == a@.len(),
            na == b@.len(),
            forall|j: int| 0 <= j < i ==> a@[j] == b@[j],
        decreases na - i,
    {
        if a.get_char(i) != b.get_char(i) {
            return false;
        }
        i += 1;
    }
    proof {
        assert(a@ =~= b@);
    }
    true
}

impl<V> View for StrMap<V> {
    type V = Map<Seq<char>, V>;

    closed spec fn view(&self) -> Map<Seq<char>, V> {
        Map::new(
            |k: Seq<char>| exists|i: int| 0 <= i < self.pairs@.len() && self.pairs@[i].0@ == k,
            |k: Seq<char>| self.pairs@[self.key_index(k)].1,
        )
    }
}

impl<V> StrMap<V> {
    /// The keys in storage order, as views.
    pub closed spec fn key_seq(self) -> Seq<Seq<char>> {
        Seq::new(self.pairs@.len() as nat, |i: int| self.pairs@[i].0@)
    }

    /// Each key occurs at most once.
    pub closed spec fn wf(self) -> bool {
        forall|i: int, j: int|
            0 <= i < j < self.pairs@.len() ==> self.pairs@[i].0@ != self.pairs@[j].0@
    }

    spec fn key_index(self, k: Seq<char>) -> int {
        choose|i: int| 0 <= i < self.pairs@.len() && self.pairs@[i].0@ == k
    }

    proof fn lemma_at(self, i: int)
        requires
            self.wf(),
            0 <= i < self.pairs@.len(),
        ensures
            self@.contains_key(self.pairs@[i].0@),
            self@[self.pairs@[i].0@] == self.pairs@[i].1,
            self.key_index(self.pairs@[i].0@) == i,
    {
        let k = self.pairs@[i].0@;
        assert(0 <= i < self.pairs@.len() && self.pairs@[i].0@ == k);
        let j = self.key_index(k);
        assert(0 <= j < self.pairs@.len() && self.pairs@[j].0@ == k);
        if i < j {
            assert(false);
        }
        if j < i {
            assert(false);
        }
    }

    /// The domain of the view is exactly the set of stored keys.
    pub proof fn lemma_dom(self)
        requires
            self.wf(),
        ensures
            forall|k: Seq<char>| #[trigger] self@.contains_key(k) <==> self.key_seq().contains(k),
            self.key_seq().no_duplicates(),
    {
        assert forall|k: Seq<char>| #[trigger] self@.contains_key(k) implies self.key_seq().contains(
            k,
        ) by {
            let i = choose|i: int| 0 <= i < self.pairs@.len() && self.pairs@[i].0@ == k;
            assert(self.key_seq()[i] == k);
        }
        assert forall|k: Seq<char>| self.key_seq().contains(k) implies #[trigger] self@.contains_key(
            k,
        ) by {
            let i = choose|i: int|
                0 <= i < self.key_seq().len() && self.key_seq()[i] == k;
            self.lemma_at(i);
        }
    }

    pub fn new() -> (r: Self)
        ensures
            r.wf(),
            r@ == Map::<Seq<char>, V>::empty(),
            r.key_seq() == Seq::<Seq<char>>::empty(),
    {
        let r = StrMap { pairs: Vec::new() };
        proof {
            assert(r@ =~= Map::<Seq<char>, V>::empty());
            assert(r.key_seq() =~= Seq::<Seq<char>>::empty());
        }
        r
    }

    pub fn len(&self) -> (n: usize)
        ensures
            n == self.key_seq().len(),
    {
        self.pairs.len()
    }

    pub fn key_at(&self, i: usize) -> (k: &String)
        requires
            self.wf(),
            i < self.key_seq().len(),
        ensures
            k@ == self.key_seq()[i as int],
            self@.contains_key(k@),
    {
        proof {
            self.lemma_at(i as int);
        }
        &self.pairs[i].0
    }

    pub fn val_at(&self, i: usize) -> (v: &V)
        requires
            self.wf(),
            i < self.key_seq().len(),
        ensures
            self@.contains_key(self.key_seq()[i as int]),
            *v == self@[self.key_seq()[i as int]],
    {
        proof {
            self.lemma_at(i as int);
        }
        &self.pairs[i].1
    }

    pub fn get(&self, k: &str) -> (r: Option<&V>)
        requires
            self.wf(),
        ensures
            match r {
                Some(v) => self@.contains_key(k@) && *v == self@[k@],
                None => !self@.contains_key(k@),
            },
    {
        let n = self.pairs.len();
        let mut i: usize = 0;
        while i < n
            invariant
                i <= n,
                n == self.pairs@.len(),
                self.wf(),
                forall|j: int| 0 <= j < i ==> self.pairs@[j].0@ != k@,
            decreases n - i,
        {
            if str_eq(self.pairs[i].0.as_str(), k) {
                proof {
                    self.lemma_at(i as int);
                }
                return Some(&self.pairs[i].1);
            }
            i += 1;
        }
        proof {
            assert(!self@.contains_key(k@));
        }
        None
    }

    pub fn insert(&mut self, k: String, v: V)
        requires
            old(self).wf(),
        ensures
            final(self).wf(),
            final(self)@ == old(self)@.insert(k@, v),
    {
        let n = self.pairs.len();
        let mut i: usize = 0;
        while i < n
            invariant
                i <= n,
                n == self.pairs@.len(),
                self.wf(),
                *self == *old(self),
                forall|j: int| 0 <= j < i ==> self.pairs@[j].0@ != k@,
            decreases n - i,
        {
            if str_eq(self.pairs[i].0.as_str(), k.as_str()) {
                proof {
                    old(self).lemma_at(i as int);
                }
                self.pairs[i] = (k, v);
                proof {
                    let op = old(self).pairs@;
                    let np = self.pairs@;
                    assert(np[i as int].0@ == k@);
                    assert forall|j: int| 0 <= j < np.len() implies #[trigger] np[j].0@
                        == op[j].0@ by {}
                    assert forall|x: int, y: int| 0 <= x < y < np.len() implies np[x].0@
                        != np[y].0@ by {
                        assert(op[x].0@ != op[y].0@);
                    }
                    self.lemma_at(i as int);
                    assert forall|x: Seq<char>| #[trigger] self@.contains_key(x) implies old(self)@.insert(
                        k@,
                        v,
                    ).contains_key(x) by {
                        let j = choose|j: int| 0 <= j < np.len() && np[j].0@ == x;
                        assert(op[j].0@ == x);
                        old(self).lemma_at(j);
                    }
                    assert forall|x: Seq<char>| #[trigger] old(self)@.insert(k@, v).contains_key(
                        x,
                    ) implies self@.contains_key(x) by {
                        if x == k@ {
                            assert(np[i as int].0@ == x);
                        } else {
                            let j = old(self).key_index(x);
                            old(self).lemma_at(j);
                            assert(np[j].0@ == x);
                        }
                    }
                    assert forall|x: Seq<char>| #[trigger] self@.contains_key(x) implies self@[x]
                        == old(self)@.insert(k@, v)[x] by {
                        let j = self.key_index(x);
                        self.lemma_at(j);
                        if x == k@ {
                            assert(j == i);
                        } else {
                            assert(j != i);
                            old(self).lemma_at(j);
                        }
                    }
                    assert(self@ =~= old(self)@.insert(k@, v));
                }
                return ;
            }
            i += 1;
        }
        self.pairs.push((k, v));
        proof {
            let op = old(self).pairs@;
            let np = self.pairs@;
            let last = np.len() - 1;
            assert(np[last].0@ == k@);
            assert forall|x: int, y: int| 0 <= x < y < np.len() implies np[x].0@ != np[y].0@ by {
                if y < last {
                    assert(op[x].0@ != op[y].0@);
                } else {
                    assert(op[x].0@ != k@);
                }
            }
            self.lemma_at(last);
            assert forall|x: Seq<char>| #[trigger] self@.contains_key(x) implies old(self)@.insert(
                k@,
                v,
            ).contains_key(x) by {
                let j = choose|j: int| 0 <= j < np.len() && np[j].0@ == x;
                if j < last {
                    assert(op[j].0@ == x);
                    old(self).lemma_at(j);
                } else {
                    assert(x == k@);
                }
            }
            assert forall|x: Seq<char>| #[trigger] old(self)@.insert(k@, v).contains_key(
                x,
            ) implies self@.contains_key(x) by {
                if x == k@ {
                    assert(np[last].0@ == x);
                } else {
                    let j = old(self).key_index(x);
                    old(self).lemma_at(j);
                    assert(np[j].0@ == x);
                }
            }
            assert forall|x: Seq<char>| #[trigger] self@.contains_key(x) implies self@[x]
                == old(self)@.insert(k@, v)[x] by {
                let j = self.key_index(x);
                self.lemma_at(j);
                if x == k@ {
                    assert(j == last);
                } else {
                    assert(j < last);
                    old(self).lemma_at(j);
                }
            }
            assert(self@ =~= old(self)@.insert(k@, v));
        }
    }

    pub fn take(&mut self, k: &str) -> (r: Option<V>)
        requires
            old(self).wf(),
        ensures
            final(self).wf(),
            match r {
                Some(v) => old(self)@.contains_key(k@) && v == old(self)@[k@] && final(self)@ == old(
                    self,
                )@.remove(k@),
                None => !old(self)@.contains_key(k@) && *final(self) == *old(self),
            },
    {
        let n = self.pairs.len();
        let mut i: usize = 0;
        while i < n
            invariant
                i <= n,
                n == self.pairs@.len(),
                self.wf(),
                *self == *old(self),
                forall|j: int| 0 <= j < i ==> self.pairs@[j].0@ != k@,
            decreases n - i,
        {
            if str_eq(self.pairs[i].0.as_str(), k) {
                proof {
                    old(self).lemma_at(i as int);
                }
                let p = self.pairs.remove(i);
                proof {
                    assert forall|x: int, y: int|
                        0 <= x < y < self.pairs@.len() implies self.pairs@[x].0@
                        != self.pairs@[y].0@ by {
                        if y < i {
                        } else if x < i {
                            assert(self.pairs@[y].0@ == old(self).pairs@[y + 1].0@);
                        } else {
                            assert(self.pairs@[x].0@ == old(self).pairs@[x + 1].0@);
                            assert(self.pairs@[y].0@ == old(self).pairs@[y + 1].0@);
                        }
                    }
                    assert(self@ =~= old(self)@.remove(k@)) by {
                        assert forall|x: Seq<char>|
                            self@.contains_key(x) == old(self)@.remove(k@).contains_key(x) by {
                            if old(self)@.remove(k@).contains_key(x) {
                                let j = old(self).key_index(x);
                                old(self).lemma_at(j);
                                if j < i {
                                    assert(self.pairs@[j].0@ == x);
                                } else {
                                    assert(j > i);
                                    assert(self.pairs@[j - 1].0@ == x);
                                }
                            }
                            if self@.contains_key(x) {
                                let j = self.key_index(x);
                                if j < i {
                                    old(self).lemma_at(j);
                                } else {
                                    old(self).lemma_at(j + 1);
                                }
                            }
                        }
                        assert forall|x: Seq<char>| self@.contains_key(x) implies self@[x]
                            == old(self)@[x] by {
                            let j = self.key_index(x);
                            self.lemma_at(j);
                            if j < i {
                                old(self).lemma_at(j);
                            } else {
                                old(self).lemma_at(j + 1);
                            }
                        }
                    }
                }
                return Some(p.1);
            }
            i += 1;
        }
        proof {
            assert(!self@.contains_key(k@));
        }
        None
    }
}

} // verus!
