//! The elements that a circuit draws on: for each element name, the queue of
//! elements still to be used, taken from the front in the order given.
use vstd::prelude::*;
use std::collections::VecDeque;

verus! {

/// How many elements `supply` still holds for `key` (none if the key is
/// absent).
pub open spec fn supply_len<E>(supply: Map<Seq<char>, Seq<E>>, key: Seq<char>) -> nat {
    if supply.dom().contains(key) {
        supply[key].len()
    } else {
        0
    }
}

/// A map from element names to queues of elements, viewed as a map from
/// names to the sequences of elements still to be taken, front first.
pub struct ElementMap<E> {
    keys: Vec<String>,
    queues: Vec<VecDeque<E>>,
}

impl<E> ElementMap<E> {
    /// Each name has one queue, and no name occurs twice.
    pub closed spec fn wf(&self) -> bool {
        &&& self.keys.len() == self.queues.len()
        &&& forall|i: int, j: int|
            0 <= i < j < self.keys.len() ==> #[trigger] self.keys@[i]@ != #[trigger] self.keys@[j]@
    }

    /// Whether some slot holds `key`.
    closed spec fn has_slot(&self, key: Seq<char>) -> bool {
        exists|i: int| 0 <= i < self.keys.len() && self.keys@[i]@ == key
    }

    /// The slot that holds `key`.
    closed spec fn slot(&self, key: Seq<char>) -> int {
        choose|i: int| 0 <= i < self.keys.len() && self.keys@[i]@ == key
    }

    /// The map from names to the elements still held for them.
    pub closed spec fn contents(&self) -> Map<Seq<char>, Seq<E>> {
        Map::new(|k: Seq<char>| self.has_slot(k), |k: Seq<char>| self.queues@[self.slot(k)]@)
    }

    proof fn lemma_slot(&self, i: int)
        requires
            self.wf(),
            0 <= i < self.keys.len(),
        ensures
            self.has_slot(self.keys@[i]@),
            self.slot(self.keys@[i]@) == i,
            self.contents().dom().contains(self.keys@[i]@),
            self.contents()[self.keys@[i]@] == self.queues@[i]@,
    {
        let k = self.keys@[i]@;
        assert(self.has_slot(k));
        let j = self.slot(k);
        if j != i {
            if j < i {
                assert(self.keys@[j]@ != self.keys@[i]@);
            } else {
                assert(self.keys@[i]@ != self.keys@[j]@);
            }
        }
    }

    /// The slot of `key`, if there is one.
    fn find(&self, key: &String) -> (r: Option<usize>)
        requires
            self.wf(),
        ensures
            match r {
                Some(i) => i < self.keys.len() && self.keys@[i as int]@ == key@,
                None => !self.has_slot(key@),
            },
    {
        let mut i: usize = 0;
        while i < self.keys.len()
            invariant
                i <= self.keys.len(),
                forall|j: int| 0 <= j < i ==> self.keys@[j]@ != key@,
            decreases self.keys.len() - i,
        {
            if self.keys[i] == *key {
                return Some(i);
            }
            i = i + 1;
        }
        None
    }

    /// An empty map.
    pub fn new() -> (m: Self)
        ensures
            m.wf(),
            m.contents() == Map::<Seq<char>, Seq<E>>::empty(),
    {
        let m = ElementMap { keys: Vec::new(), queues: Vec::new() };
        assert(m.contents() =~= Map::<Seq<char>, Seq<E>>::empty());
        m
    }

    /// Supplies `elements` for `key`, in this order, in place of whatever was
    /// supplied for it before.
    pub fn insert(&mut self, key: &str, elements: Vec<E>)
        requires
            old(self).wf(),
        ensures
            final(self).wf(),
            final(self).contents() == old(self).contents().insert(key@, elements@),
    {
        let ghost old_contents = self.contents();
        let ghost given = elements@;
        let mut elements = elements;
        let mut queue: VecDeque<E> = VecDeque::new();
        while elements.len() > 0
            invariant
                elements@ + queue@ == given,
            decreases elements.len(),
        {
            let x = elements.pop().unwrap();
            queue.push_front(x);
            assert(elements@ + queue@ =~= given);
        }
        assert(queue@ =~= given);
        let k = key.to_owned();
        match self.find(&k) {
            Some(i) => {
                self.queues.set(i, queue);
                proof {
                    let new_contents = self.contents();
                    assert forall|kk: Seq<char>| #[trigger]
                        new_contents.dom().contains(kk) == old_contents.insert(
                            key@,
                            given,
                        ).dom().contains(kk) by {}
                    assert forall|kk: Seq<char>| new_contents.dom().contains(kk) implies #[trigger] new_contents[kk]
                        == old_contents.insert(key@, given)[kk] by {
                        let j = self.slot(kk);
                        self.lemma_slot(j);
                    }
                    assert(new_contents =~= old_contents.insert(key@, given));
                }
            },
            None => {
                self.keys.push(k);
                self.queues.push(queue);
                proof {
                    let new_contents = self.contents();
                    assert forall|kk: Seq<char>| #[trigger]
                        new_contents.dom().contains(kk) == old_contents.insert(
                            key@,
                            given,
                        ).dom().contains(kk) by {
                        if old_contents.dom().contains(kk) {
                            let j = old(self).slot(kk);
                            assert(self.keys@[j] == old(self).keys@[j]);
                        }
                        if new_contents.dom().contains(kk) && kk != key@ {
                            let j = self.slot(kk);
                            assert(old(self).keys@[j] == self.keys@[j]);
                        }
                        if kk == key@ {
                            self.lemma_slot(self.keys.len() - 1);
                        }
                    }
                    assert forall|kk: Seq<char>| new_contents.dom().contains(kk) implies #[trigger] new_contents[kk]
                        == old_contents.insert(key@, given)[kk] by {
                        let j = self.slot(kk);
                        self.lemma_slot(j);
                        if j < old(self).keys.len() {
                            old(self).lemma_slot(j);
                        }
                    }
                    assert(new_contents =~= old_contents.insert(key@, given));
                }
            },
        }
    }

    /// How many elements are still held for `key`.
    pub fn remaining(&self, key: &String) -> (n: usize)
        requires
            self.wf(),
        ensures
            n == supply_len(self.contents(), key@),
    {
        match self.find(key) {
            Some(i) => {
                proof {
                    self.lemma_slot(i as int);
                }
                self.queues[i].len()
            },
            None => 0,
        }
    }

    /// Takes the next element held for `key`.
    pub fn take_next(&mut self, key: &String) -> (e: E)
        requires
            old(self).wf(),
            supply_len(old(self).contents(), key@) > 0,
        ensures
            final(self).wf(),
            e == old(self).contents()[key@][0],
            final(self).contents() == old(self).contents().insert(
                key@,
                old(self).contents()[key@].drop_first(),
            ),
    {
        let ghost old_contents = self.contents();
        let i = self.find(key).unwrap();
        proof {
            self.lemma_slot(i as int);
        }
        let e = self.queues[i].pop_front().unwrap();
        proof {
            let new_contents = self.contents();
            let target = old_contents.insert(key@, old_contents[key@].drop_first());
            assert forall|kk: Seq<char>| #[trigger]
                new_contents.dom().contains(kk) == target.dom().contains(kk) by {
                if new_contents.dom().contains(kk) {
                    let j = self.slot(kk);
                    assert(old(self).keys@[j] == self.keys@[j]);
                }
                if old_contents.dom().contains(kk) {
                    let j = old(self).slot(kk);
                    assert(old(self).keys@[j] == self.keys@[j]);
                }
            }
            assert forall|kk: Seq<char>| new_contents.dom().contains(kk) implies #[trigger] new_contents[kk]
                == target[kk] by {
                let j = self.slot(kk);
                self.lemma_slot(j);
                old(self).lemma_slot(j);
            }
            assert(new_contents =~= target);
        }
        e
    }
}

} // verus!
