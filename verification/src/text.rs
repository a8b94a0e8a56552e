//! Text keyed containers: a set of strings and a string-keyed map.

use vstd::prelude::*;

use crate::assoc::{lemma_filter_member, lemma_map_push, lemma_push_to_set};



verus! {

/// Values that can be duplicated into a copy with the same view.
pub trait DeepCopy: View + Sized {
    fn deep_copy(&self) -> (r: Self)
        ensures
            r@ == self@,
    ;
}

impl DeepCopy for String {
    fn deep_copy(&self) -> (r: String) {
        self.clone()
    }
}

/// `str` equality (`<str as PartialEq>::eq`): the two strings hold the same characters.
#[verifier::external_body]
pub(crate) fn str_eq(a: &str, b: &str) -> (r: bool)
    ensures
        r == (a@ == b@),
{
    a == b
}

/// A set of strings, kept as a list without repeats in insertion order.
#[derive(Debug, Clone, Default)]
pub struct TextSet {
    items: Vec<String>,
}

impl View for TextSet {
    type V = Set<Seq<char>>;

    open spec fn view(&self) -> Set<Seq<char>> {
        self.items_view().to_set()
    }
}

impl TextSet {
    /// The members in storage order.
    pub closed spec fn items_view(&self) -> Seq<Seq<char>> {
        self.items@.map_values(|s: String| s@)
    }

    pub fn new() -> (r: Self)
        ensures
            r.items_view() == Seq::<Seq<char>>::empty(),
            r@ == Set::<Seq<char>>::empty(),
    {
        let r = TextSet { items: Vec::new() };
        assert(r.items_view() =~= Seq::<Seq<char>>::empty());
        assert(r@ =~= Set::<Seq<char>>::empty());
        r
    }

    /// Number of stored members.
    pub fn len(&self) -> (r: usize)
        ensures
            r == self.items_view().len(),
    {
        self.items.len()
    }

    pub fn is_empty(&self) -> (r: bool)
        ensures
            r == (self.items_view().len() == 0),
    {
        self.items.len() == 0
    }

    /// The member stored at position `i`.
    pub fn item_at(&self, i: usize) -> (r: &String)
        requires
            i < self.items_view().len(),
        ensures
            r@ == self.items_view()[i as int],
    {
        &self.items[i]
    }

    pub fn contains(&self, s: &str) -> (r: bool)
        ensures
            r == self@.contains(s@),
            r == self.items_view().contains(s@),
    {
        let mut i: usize = 0;
        while i < self.items.len()
            invariant
                i <= self.items@.len(),
                forall|j: int| 0 <= j < i ==> self.items_view()[j] != s@,
            decreases self.items@.len() - i,
        {
            if str_eq(self.items[i].as_str(), s) {
                assert(self.items_view()[i as int] == s@);
                return true;
            }
            i = i + 1;
        }
        proof { true_if_member(self.items_view(), s@); }
        false
    }

    /// Add `s`; `true` when it was not yet a member.
    pub fn insert(&mut self, s: String) -> (r: bool)
        ensures
            r == !old(self)@.contains(s@),
            final(self)@ == old(self)@.insert(s@),
            final(self).items_view() == (if r {
                old(self).items_view().push(s@)
            } else {
                old(self).items_view()
            }),
    {
        if self.contains(s.as_str()) {
            assert(self@.insert(s@) =~= self@);
            false
        } else {
            let ghost sv = s@;
            self.items.push(s);
            proof {
                lemma_map_push(old(self).items@, s, |x: String| x@);
                lemma_push_to_set(old(self).items_view(), sv);
            }
            true
        }
    }

    /// Remove `s`; `true` when it was a member.
    pub fn remove(&mut self, s: &str) -> (r: bool)
        ensures
            r == old(self)@.contains(s@),
            final(self)@ == old(self)@.remove(s@),
            final(self).items_view() == old(self).items_view().filter(|x: Seq<char>| x != s@),
    {
        let ghost f = |x: Seq<char>| x != s@;
        let ghost old_items = self.items_view();
        let mut kept: Vec<String> = Vec::new();
        let mut found = false;
        let mut i: usize = 0;
        while i < self.items.len()
            invariant
                i <= self.items@.len(),
                self.items_view() == old_items,
                f == (|x: Seq<char>| x != s@),
                kept@.map_values(|x: String| x@) == old_items.take(i as int).filter(f),
                found == old_items.take(i as int).contains(s@),
            decreases self.items@.len() - i,
        {
            proof {
                assert(old_items.take(i + 1).drop_last() =~= old_items.take(i as int));
                reveal_with_fuel(Seq::filter, 1);
                if old_items.take(i as int).contains(s@) {
                    let j = choose|j: int| 0 <= j < i && old_items.take(i as int)[j] == s@;
                    assert(old_items.take(i + 1)[j] == s@);
                }
                let t1 = old_items.take(i + 1);
                if t1.contains(s@) {
                    let j = choose|j: int| 0 <= j < t1.len() && t1[j] == s@;
                    if j < i {
                        assert(old_items.take(i as int)[j] == s@);
                    }
                }
            }
            proof {
                let t1 = old_items.take(i + 1);
                assert(t1.filter(f) == (if f(t1.last()) {
                    t1.drop_last().filter(f).push(t1.last())
                } else {
                    t1.drop_last().filter(f)
                })) by {
                    reveal_with_fuel(Seq::filter, 1);
                }
            }
            assert(old_items[i as int] == self.items@[i as int]@);
            assert(old_items.take(i + 1).last() == old_items[i as int]);
            assert(old_items.take(i + 1).drop_last() =~= old_items.take(i as int));
            if str_eq(self.items[i].as_str(), s) {
                found = true;
                assert(old_items.take(i + 1)[i as int] == s@);
            } else {
                let c = self.items[i].clone();
                let ghost prev = kept@;
                kept.push(c);
                proof {
                    lemma_map_push(prev, c, |x: String| x@);
                    assert(kept@.map_values(|x: String| x@) == prev.map_values(|x: String| x@).push(c@));
                    assert(c@ == old_items[i as int]);
                    assert(f(old_items[i as int]));
                    assert(old_items.take(i + 1).filter(f) == old_items.take(i as int).filter(f).push(old_items[i as int]));
                }
            }
            assert(kept@.map_values(|x: String| x@) == old_items.take(i + 1).filter(f));
            i = i + 1;
        }
        assert(old_items.take(i as int) =~= old_items);
        self.items = kept;
        proof {
            assert(self.items_view() == old_items.filter(f));
            assert forall|x: Seq<char>| #[trigger] self@.contains(x) == old(self)@.remove(s@).contains(x) by {
                lemma_filter_member(old_items, f, x);
            }
            assert(self@ =~= old(self)@.remove(s@));
        }
        found
    }

    /// The set of the given strings.
    pub fn from_list(list: &Vec<String>) -> (r: Self)
        ensures
            r@ == list@.map_values(|s: String| s@).to_set(),
    {
        let ghost lv = list@.map_values(|s: String| s@);
        let mut r = TextSet::new();
        let mut i: usize = 0;
        while i < list.len()
            invariant
                i <= list@.len(),
                lv == list@.map_values(|s: String| s@),
                r@ == lv.take(i as int).to_set(),
            decreases list@.len() - i,
        {
            let c = list[i].clone();
            r.insert(c);
            proof {
                assert(lv.take(i + 1) =~= lv.take(i as int).push(lv[i as int]));
                lemma_push_to_set(lv.take(i as int), lv[i as int]);
            }
            i = i + 1;
        }
        assert(lv.take(i as int) =~= lv);
        r
    }
}

impl DeepCopy for TextSet {
    fn deep_copy(&self) -> (r: TextSet) {
        let mut items: Vec<String> = Vec::new();
        let mut i: usize = 0;
        while i < self.items.len()
            invariant
                i <= self.items@.len(),
                items@.map_values(|x: String| x@) == self.items_view().take(i as int),
            decreases self.items@.len() - i,
        {
            let c = self.items[i].clone();
            let ghost prev = items@;
            items.push(c);
            proof {
                lemma_map_push(prev, c, |x: String| x@);
                assert(self.items_view().take(i + 1) =~= self.items_view().take(i as int).push(c@));
            }
            i = i + 1;
        }
        assert(self.items_view().take(i as int) =~= self.items_view());
        let r = TextSet { items };
        assert(r.items_view() == self.items_view());
        r
    }
}

proof fn true_if_member(s: Seq<Seq<char>>, x: Seq<char>)
    requires
        forall|j: int| 0 <= j < s.len() ==> s[j] != x,
    ensures
        !s.contains(x),
        !s.to_set().contains(x),
{
}

} // verus!
