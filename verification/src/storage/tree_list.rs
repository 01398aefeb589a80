//! A list that grows without long pauses.

use std::collections::BTreeMap;

use vstd::prelude::*;

verus! {

/// How many items a page of a list holds.
pub const TREE_LIST_NODE_SIZE: usize = 16384;

/// A list that behaves mostly like a vector, but never moves its items to grow, at the cost of
/// slower accesses.
pub struct TreeList<T> {
    // From the number of a page to the page. All pages but the last are full.
    m: BTreeMap<usize, Vec<T>>,
    len: usize,
}

impl<T> View for TreeList<T> {
    type V = Seq<T>;

    closed spec fn view(&self) -> Seq<T> {
        Seq::new(
            self.len as nat,
            |i: int|
                self.m@[(i / TREE_LIST_NODE_SIZE as int) as usize]@[i % TREE_LIST_NODE_SIZE as int],
        )
    }
}

/// How many items of a list of a given length are in a page.
spec fn page_len(len: int, page: int) -> int {
    let rest = len - page * TREE_LIST_NODE_SIZE;
    if rest <= 0 {
        0
    } else if rest < TREE_LIST_NODE_SIZE {
        rest
    } else {
        TREE_LIST_NODE_SIZE as int
    }
}

impl<T> TreeList<T> {
    /// The pages are those that the length asks for, all full but the last.
    pub closed spec fn wf(&self) -> bool {
        &&& forall|p: usize| #[trigger]
            self.m@.contains_key(p) <==> page_len(self.len as int, p as int) > 0
        &&& forall|p: usize| #[trigger]
            self.m@.contains_key(p) ==> self.m@[p]@.len() == page_len(self.len as int, p as int)
    }

    pub fn new() -> (r: Self)
        ensures
            r.wf(),
            r@ == Seq::<T>::empty(),
    {
        let r = TreeList { m: BTreeMap::new(), len: 0 };
        assert(r@ =~= Seq::<T>::empty());
        r
    }

    /// Adds an item at the end.
    pub fn push(&mut self, item: T)
        requires
            old(self).wf(),
            old(self)@.len() < usize::MAX,
        ensures
            final(self).wf(),
            final(self)@ == old(self)@.push(item),
    {
        let page_idx: usize = self.len / TREE_LIST_NODE_SIZE;
        let ghost before = self.m@;
        let ghost len = self.len as int;
        proof {
            assert(len == page_idx * TREE_LIST_NODE_SIZE + len % TREE_LIST_NODE_SIZE as int);
        }
        let mut page: Vec<T> = match self.m.remove(&page_idx) {
            Some(page) => page,
            None => Vec::new(),
        };
        assert(page@.len() == len % TREE_LIST_NODE_SIZE as int);
        page.push(item);
        let ghost new_page = page@;
        self.m.insert(page_idx, page);
        self.len = self.len + 1;
        proof {
            assert forall|p: usize| #[trigger]
                self.m@.contains_key(p) <==> page_len(self.len as int, p as int) > 0 by {
                if p != page_idx {
                    assert(before.contains_key(p) <==> page_len(len, p as int) > 0);
                }
            }
            assert forall|p: usize| #[trigger] self.m@.contains_key(p) implies self.m@[p]@.len()
                == page_len(self.len as int, p as int) by {
                if p != page_idx {
                    assert(before.contains_key(p));
                }
            }
            assert forall|i: int| 0 <= i < old(self)@.len() implies self@[i] == old(self)@[i] by {
                let p = (i / TREE_LIST_NODE_SIZE as int) as usize;
                if p == page_idx {
                    assert(before.contains_key(p));
                }
            }
            assert(self@ =~= old(self)@.push(item));
        }
    }

    pub fn len(&self) -> (r: usize)
        ensures
            r == self@.len(),
    {
        self.len
    }

    /// The item at an index.
    pub fn index(&self, index: usize) -> (r: &T)
        requires
            self.wf(),
            index < self@.len(),
        ensures
            *r == self@[index as int],
    {
        let page_idx: usize = index / TREE_LIST_NODE_SIZE;
        assert(self.m@.contains_key(page_idx));
        let page = self.m.get(&page_idx).unwrap();
        &page[index % TREE_LIST_NODE_SIZE]
    }

    /// Replaces the item at an index and returns what was there.
    pub fn replace(&mut self, index: usize, item: T) -> (r: T)
        requires
            old(self).wf(),
            index < old(self)@.len(),
        ensures
            final(self).wf(),
            final(self)@ == old(self)@.update(index as int, item),
            r == old(self)@[index as int],
    {
        let page_idx: usize = index / TREE_LIST_NODE_SIZE;
        let at: usize = index % TREE_LIST_NODE_SIZE;
        let ghost before = self.m@;
        assert(before.contains_key(page_idx));
        let mut page = self.m.remove(&page_idx).unwrap();
        let ghost old_page = page@;
        let mut r = item;
        std::mem::swap(&mut r, &mut page[at]);
        assert(page@ =~= old_page.update(at as int, item));
        let ghost new_page = page@;
        self.m.insert(page_idx, page);
        proof {
            assert forall|p: usize| #[trigger] self.m@.contains_key(p) <==> before.contains_key(
                p,
            ) by {}
            assert forall|i: int| 0 <= i < self@.len() implies self@[i] == old(self)@.update(
                index as int,
                item,
            )[i] by {
                let p = (i / TREE_LIST_NODE_SIZE as int) as usize;
                let q = i % TREE_LIST_NODE_SIZE as int;
                assert(i == p * TREE_LIST_NODE_SIZE + q);
                assert(before.contains_key(p));
                if p == page_idx && q == at {
                    assert(i == index);
                }
            }
            assert(self@ =~= old(self)@.update(index as int, item));
        }
        r
    }
}

} // verus!
