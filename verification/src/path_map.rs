//! A map keyed by bit paths.

use vstd::prelude::*;

verus! {

/// `q` begins with the first `n` bits of `path`.
spec fn begins_with(q: Seq<bool>, path: Seq<bool>, n: int) -> bool {
    q.len() >= n && q.take(n) == path.take(n)
}

/// A path that does not begin with the first `n` bits of `path` does not
/// begin with the first `n + 1` either.
proof fn lemma_begins_with_shorter(q: Seq<bool>, path: Seq<bool>, n: int)
    requires
        0 <= n < path.len(),
        begins_with(q, path, n + 1),
    ensures
        begins_with(q, path, n),
{
    assert(q.take(n) == q.take(n + 1).take(n));
    assert(path.take(n) == path.take(n + 1).take(n));
}

/// One position of the binary trie: the entry stored at this position, and
/// the two subtries below it.
struct Branch<V> {
    entry: Option<V>,
    left: Option<Box<Branch<V>>>,
    right: Option<Box<Branch<V>>>,
}

impl<V> Branch<V> {
    /// The entry reached from here by following `path`, bit by bit
    /// (`false` goes left, `true` goes right).
    #[verifier::opaque]
    spec fn lookup(self, path: Seq<bool>) -> Option<V>
        decreases path.len(),
    {
        if path.len() == 0 {
            self.entry
        } else {
            let below = if path[0] {
                self.right
            } else {
                self.left
            };
            match below {
                None => None,
                Some(child) => child.lookup(path.drop_first()),
            }
        }
    }

    fn empty() -> (branch: Self)
        ensures
            forall|path: Seq<bool>| branch.lookup(path) is None,
    {
        reveal_with_fuel(Branch::lookup, 1);
        Branch { entry: None, left: None, right: None }
    }

    /// What is found below the child on the side of bit `i` of `path`, when
    /// what is found below `self` is what `start` holds below the first `i`
    /// bits of `path`.
    proof fn lemma_child_now(
        self,
        start: Branch<V>,
        child: Branch<V>,
        path: Seq<bool>,
        i: int,
        rest: Seq<bool>,
    )
        requires
            0 <= i < path.len(),
            self.lookup(seq![path[i]] + rest) == start.lookup(
                path.take(i) + (seq![path[i]] + rest),
            ),
            (if path[i] {
                self.right
            } else {
                self.left
            }) matches Some(below) ==> child == *below,
            (if path[i] {
                self.right
            } else {
                self.left
            }) is None ==> child.lookup(rest) is None,
        ensures
            child.lookup(rest) == start.lookup(path.take(i + 1) + rest),
    {
        reveal_with_fuel(Branch::lookup, 1);
        let longer = seq![path[i]] + rest;
        assert(longer.drop_first() == rest);
        assert(path.take(i) + longer == path.take(i + 1) + rest);
    }

    /// What will be found below `after`, which is `self` but for the child
    /// on the side of bit `i` of `path`, which will be `child`.
    proof fn lemma_child_later(
        self,
        start: Branch<V>,
        after: Branch<V>,
        child: Branch<V>,
        path: Seq<bool>,
        i: int,
        q: Seq<bool>,
    )
        requires
            0 <= i < path.len(),
            begins_with(q, path, i),
            self.lookup(q.skip(i)) == start.lookup(path.take(i) + q.skip(i)),
            after.entry == self.entry,
            path[i] ==> after.left == self.left && after.right == Some(Box::new(child)),
            !path[i] ==> after.right == self.right && after.left == Some(Box::new(child)),
        ensures
            after.lookup(q.skip(i)) == if begins_with(q, path, i + 1) {
                child.lookup(q.skip(i + 1))
            } else {
                start.lookup(q)
            },
    {
        reveal_with_fuel(Branch::lookup, 1);
        let rest = q.skip(i);
        assert(path.take(i) + rest == q);
        if rest.len() > 0 {
            assert(rest.drop_first() == q.skip(i + 1));
            if rest[0] == path[i] {
                assert(q.take(i + 1) == path.take(i + 1));
            } else {
                assert(q.take(i + 1)[i] != path.take(i + 1)[i]);
            }
        }
    }

    /// What is found in the whole trie once the entry at `path` is set,
    /// where `self` is the position at `path` before and `set` after.
    proof fn lemma_entry_set(
        self,
        start: Branch<V>,
        set: Branch<V>,
        path: Seq<bool>,
        value: V,
        q: Seq<bool>,
    )
        requires
            begins_with(q, path, path.len() as int) ==> self.lookup(q.skip(path.len() as int))
                == start.lookup(path.take(path.len() as int) + q.skip(path.len() as int)),
            set.entry == Some(value),
            set.left == self.left,
            set.right == self.right,
        ensures
            (if begins_with(q, path, path.len() as int) {
                set.lookup(q.skip(path.len() as int))
            } else {
                start.lookup(q)
            }) == (if q == path {
                Some(value)
            } else {
                start.lookup(q)
            }),
    {
        reveal_with_fuel(Branch::lookup, 1);
        assert(path.take(path.len() as int) == path);
        if begins_with(q, path, path.len() as int) {
            assert(path + q.skip(path.len() as int) == q);
        }
    }
}

/// A map from bit paths to values, kept as a binary trie: a lookup or an
/// insertion follows the path once, one step per bit.
pub struct PathMap<V> {
    root: Branch<V>,
}

impl<V> View for PathMap<V> {
    type V = Map<Seq<bool>, V>;

    closed spec fn view(&self) -> Map<Seq<bool>, V> {
        Map::new(
            |path: Seq<bool>| self.root.lookup(path) is Some,
            |path: Seq<bool>| self.root.lookup(path)->0,
        )
    }
}

impl<V> PathMap<V> {
    /// The empty map.
    pub fn new() -> (map: Self)
        ensures
            map@ == Map::<Seq<bool>, V>::empty(),
    {
        PathMap { root: Branch::empty() }
    }

    /// The value stored under `path`, if there is one.
    pub fn get(&self, path: &Vec<bool>) -> (found: Option<&V>)
        ensures
            match found {
                Some(value) => self@.contains_key(path@) && *value == self@[path@],
                None => !self@.contains_key(path@),
            },
    {
        let mut here: &Branch<V> = &self.root;
        let mut i: usize = 0;
        assert(path@.skip(0) == path@);
        while i < path.len()
            invariant
                i <= path.len(),
                self.root.lookup(path@) == here.lookup(path@.skip(i as int)),
            decreases path.len() - i,
        {
            proof {
                reveal_with_fuel(Branch::lookup, 1);
                assert(path@.skip(i as int).drop_first() == path@.skip(i as int + 1));
            }
            let below = if path[i] {
                &here.right
            } else {
                &here.left
            };
            match below {
                None => {
                    return None;
                },
                Some(child) => {
                    here = &**child;
                },
            }
            i += 1;
        }
        proof {
            reveal_with_fuel(Branch::lookup, 1);
        }
        here.entry.as_ref()
    }

    /// Stores `value` under `path`, in place of what was stored there.
    ///
    /// Walks down from the root, making the positions on the way that do
    /// not exist, and sets the entry of the last one.
    pub fn insert(&mut self, path: &Vec<bool>, value: V)
        ensures
            final(self)@ == old(self)@.insert(path@, value),
    {
        let ghost start = self.root;
        let mut here: &mut Branch<V> = &mut self.root;
        let mut i: usize = 0;
        proof {
            assert forall|rest: Seq<bool>| #[trigger]
                here.lookup(rest) == start.lookup(path@.take(0) + rest) by {}
            assert forall|q: Seq<bool>|
                #[trigger] after_borrow(self.root).lookup(q) == if begins_with(q, path@, 0) {
                    final(here).lookup(q.skip(0))
                } else {
                    start.lookup(q)
                } by {
                assert(q.skip(0) == q);
                assert(q.take(0) == path@.take(0));
            }
        }
        while i < path.len()
            invariant
                i <= path.len(),
                // Below `here` is what was below the first `i` bits of `path`.
                forall|rest: Seq<bool>| #[trigger]
                    here.lookup(rest) == start.lookup(path@.take(i as int) + rest),
                // The map will be as it was, but for what `here` will hold.
                forall|q: Seq<bool>|
                    #[trigger] after_borrow(self.root).lookup(q) == if begins_with(
                        q,
                        path@,
                        i as int,
                    ) {
                        final(here).lookup(q.skip(i as int))
                    } else {
                        start.lookup(q)
                    },
            decreases path.len() - i,
        {
            let ghost above = *here;
            let ghost above_later = *final(here);
            let slot: &mut Option<Box<Branch<V>>> = if path[i] {
                &mut here.right
            } else {
                &mut here.left
            };
            if slot.is_none() {
                *slot = Some(Box::new(Branch::empty()));
            }
            match slot {
                Some(child) => {
                    here = &mut **child;
                },
                None => {
                    assert(false);
                    return ;
                },
            }
            proof {
                let below = *here;
                let below_later = *final(here);
                assert forall|rest: Seq<bool>| #[trigger]
                    below.lookup(rest) == start.lookup(path@.take(i as int + 1) + rest) by {
                    above.lemma_child_now(start, below, path@, i as int, rest);
                }
                assert forall|q: Seq<bool>|
                    #[trigger] after_borrow(self.root).lookup(q) == if begins_with(
                        q,
                        path@,
                        i as int + 1,
                    ) {
                        below_later.lookup(q.skip(i as int + 1))
                    } else {
                        start.lookup(q)
                    } by {
                    if begins_with(q, path@, i as int) {
                        above.lemma_child_later(
                            start,
                            above_later,
                            below_later,
                            path@,
                            i as int,
                            q,
                        );
                    } else if begins_with(q, path@, i as int + 1) {
                        lemma_begins_with_shorter(q, path@, i as int);
                    }
                }
            }
            i += 1;
        }
        let ghost last = *here;
        here.entry = Some(value);
        proof {
            let set = *here;
            assert forall|q: Seq<bool>| #[trigger]
                self.root.lookup(q) == if q == path@ {
                    Some(value)
                } else {
                    start.lookup(q)
                } by {
                if begins_with(q, path@, path@.len() as int) {
                    assert(last.lookup(q.skip(path@.len() as int)) == start.lookup(
                        path@.take(path@.len() as int) + q.skip(path@.len() as int),
                    ));
                }
                last.lemma_entry_set(start, set, path@, value, q);
            }
        }
    }
}

} // verus!
