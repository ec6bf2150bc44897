//! The n-gram index: for each window of words, the words seen to follow it,
//! in the order in which they were recorded and with their repetitions.

use vstd::prelude::*;

verus! {

/// A sequence of words, each one the characters of a string.
pub type Words = Seq<Seq<char>>;

/// Whether two slices hold the same words in the same order.
pub fn same_words(a: &[String], b: &[String]) -> (same: bool)
    ensures
        same == (a.deep_view() == b.deep_view()),
{
    if a.len() != b.len() {
        assert(a.deep_view().len() != b.deep_view().len());
        return false;
    }
    let mut i: usize = 0;
    while i < a.len()
        invariant
            i <= a.len(),
            a.len() == b.len(),
            forall|k: int| 0 <= k < i ==> a@[k]@ == b@[k]@,
        decreases a.len() - i,
    {
        if a[i] != b[i] {
            assert(a.deep_view()[i as int] != b.deep_view()[i as int]);
            return false;
        }
        i = i + 1;
    }
    assert(a.deep_view() =~= b.deep_view());
    true
}

/// A copy of `words`.
pub fn copy_words(words: &[String]) -> (copy: Vec<String>)
    ensures
        copy.deep_view() == words.deep_view(),
{
    let mut copy: Vec<String> = Vec::new();
    let mut i: usize = 0;
    while i < words.len()
        invariant
            i <= words.len(),
            copy.len() == i,
            forall|k: int| 0 <= k < i ==> copy@[k]@ == words@[k]@,
        decreases words.len() - i,
    {
        copy.push(words[i].clone());
        i = i + 1;
    }
    assert(copy.deep_view() =~= words.deep_view());
    copy
}

/// One window with its followers.
struct Transition {
    window: Vec<String>,
    followers: Vec<String>,
}

/// A map from windows to follower lists, kept as a list of transitions in
/// which no window stands twice.
pub struct NgramIndex {
    entries: Vec<Transition>,
}

impl View for NgramIndex {
    type V = Map<Words, Words>;

    closed spec fn view(&self) -> Map<Words, Words> {
        Map::new(
            |key: Words| self.position(key) is Some,
            |key: Words| self.entries@[self.position(key).unwrap()].followers.deep_view(),
        )
    }
}

/// The follower list that `index` holds for `key`: empty where it holds none.
pub open spec fn followers_in(index: Map<Words, Words>, key: Words) -> Words {
    if index.contains_key(key) {
        index[key]
    } else {
        Seq::empty()
    }
}

impl NgramIndex {
    /// Where the transition for `key` stands, if there is one.
    closed spec fn position(&self, key: Words) -> Option<int> {
        if exists|i: int| self.holds_at(key, i) {
            Some(choose|i: int| self.holds_at(key, i))
        } else {
            None
        }
    }

    /// Whether the transition at `i` is the one for `key`.
    closed spec fn holds_at(&self, key: Words, i: int) -> bool {
        0 <= i < self.entries@.len() && self.entries@[i].window.deep_view() == key
    }

    #[verifier::type_invariant]
    closed spec fn keys_distinct(&self) -> bool {
        forall|i: int, j: int|
            0 <= i < j < self.entries@.len() ==> self.entries@[i].window.deep_view()
                != self.entries@[j].window.deep_view()
    }

    /// An index without transitions.
    pub fn new() -> (index: NgramIndex)
        ensures
            index@ == Map::<Words, Words>::empty(),
    {
        let index = NgramIndex { entries: Vec::new() };
        assert(index@ =~= Map::<Words, Words>::empty());
        index
    }

    /// The place of the transition for `window`, if the index holds one.
    fn find(&self, window: &[String]) -> (found: Option<usize>)
        ensures
            match found {
                Some(i) => self.holds_at(window.deep_view(), i as int),
                None => forall|i: int| !self.holds_at(window.deep_view(), i),
            },
    {
        let mut i: usize = 0;
        while i < self.entries.len()
            invariant
                i <= self.entries.len(),
                forall|k: int| 0 <= k < i ==> !self.holds_at(window.deep_view(), k),
            decreases self.entries.len() - i,
        {
            if same_words(self.entries[i].window.as_slice(), window) {
                return Some(i);
            }
            i = i + 1;
        }
        None
    }

    /// The followers recorded for `window`, if it is a key.
    pub fn get(&self, window: &[String]) -> (followers: Option<&Vec<String>>)
        ensures
            match followers {
                Some(list) => self@.contains_key(window.deep_view()) && list.deep_view()
                    == self@[window.deep_view()],
                None => !self@.contains_key(window.deep_view()),
            },
    {
        proof {
            use_type_invariant(self);
        }
        match self.find(window) {
            Some(i) => {
                let ghost key = window.deep_view();
                assert(self.holds_at(key, i as int));
                assert(self.position(key) == Some(i as int));
                Some(&self.entries[i].followers)
            },
            None => None,
        }
    }

    /// Appends `next` to the followers of `window`, which becomes a key if
    /// it was none.
    pub fn record(&mut self, window: Vec<String>, next: String)
        ensures
            final(self)@ == old(self)@.insert(
                window.deep_view(),
                followers_in(old(self)@, window.deep_view()).push(next@),
            ),
    {
        proof {
            use_type_invariant(&*self);
        }
        let ghost key = window.deep_view();
        let ghost before = *self;
        let found = {
            let slice = window.as_slice();
            assert(slice.deep_view() =~= key);
            self.find(slice)
        };
        let mut entries: Vec<Transition> = Vec::new();
        core::mem::swap(&mut self.entries, &mut entries);
        assert(entries@ == before.entries@);
        match found {
            Some(i) => {
                assert(before.holds_at(key, i as int));
                assert(before.position(key) == Some(i as int));
                entries[i].followers.push(next);
                assert(entries@[i as int].followers.deep_view()
                    =~= before.entries@[i as int].followers.deep_view().push(next@));
                assert(entries@.len() == before.entries@.len());
                assert forall|j: int| 0 <= j < entries@.len() implies #[trigger] entries@[j].window
                    == before.entries@[j].window && (j != i ==> entries@[j]
                    == before.entries@[j]) by {}
            },
            None => {
                let mut followers: Vec<String> = Vec::new();
                followers.push(next);
                assert(followers.deep_view() =~= Seq::<Seq<char>>::empty().push(next@));
                entries.push(Transition { window, followers });
                assert(entries@.len() == before.entries@.len() + 1);
                assert(entries@[before.entries@.len() as int].window.deep_view() == key);
                assert forall|j: int| 0 <= j < before.entries@.len() implies #[trigger] entries@[j]
                    == before.entries@[j] by {}
            },
        }
        assert forall|i: int, j: int| 0 <= i < j < entries@.len() implies entries@[i].window.deep_view()
            != entries@[j].window.deep_view() by {
            if j == before.entries@.len() {
                assert(!before.holds_at(key, i));
            } else {
                assert(entries@[i].window == before.entries@[i].window);
                assert(entries@[j].window == before.entries@[j].window);
            }
        }
        core::mem::swap(&mut self.entries, &mut entries);
        proof {
            assert forall|k: Words| k != key implies #[trigger] self.position(k)
                == before.position(k) by {
                assert forall|j: int| self.holds_at(k, j) == before.holds_at(k, j) by {}
                if exists|j: int| self.holds_at(k, j) {
                    let a = choose|j: int| self.holds_at(k, j);
                    assert(self.holds_at(k, a));
                    assert(before.holds_at(k, a));
                    let b = choose|j: int| before.holds_at(k, j);
                    assert(before.holds_at(k, b));
                    assert(a == b);
                }
            }
            match found {
                Some(i) => {
                    assert forall|j: int| self.holds_at(key, j) == before.holds_at(key, j) by {}
                    assert(self.position(key) == Some(i as int));
                },
                None => {
                    let n = before.entries@.len() as int;
                    assert(self.holds_at(key, n));
                    assert(self.position(key) == Some(n));
                },
            }
            assert(self@ =~= before@.insert(key, followers_in(before@, key).push(next@)));
        }
    }
}

} // verus!
