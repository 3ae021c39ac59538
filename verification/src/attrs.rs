//! Attribute bookkeeping: a list of name/value pairs with distinct names,
//! viewed as a map from attribute name to value. Insertion order is
//! irrelevant to the view, which is what the audit compares.

use crate::text::str_eq;
use vstd::prelude::*;
use vstd::string::*;

verus! {

/// One attribute: a name and a value.
pub struct Attr {
    pub name: String,
    pub value: String,
}

/// An attribute list with pairwise distinct names.
pub struct AttrList {
    entries: Vec<Attr>,
}

/// Names of the entries of `s` are pairwise distinct.
pub open spec fn names_distinct(s: Seq<Attr>) -> bool {
    forall|i: int, j: int| 0 <= i < j < s.len() ==> (#[trigger] s[i]).name@ != (#[trigger] s[j]).name@
}

/// The map an attribute sequence denotes.
pub open spec fn map_of(s: Seq<Attr>) -> Map<Seq<char>, Seq<char>>
    decreases s.len(),
{
    if s.len() == 0 {
        Map::empty()
    } else {
        map_of(s.drop_last()).insert(s.last().name@, s.last().value@)
    }
}

impl View for AttrList {
    type V = Map<Seq<char>, Seq<char>>;

    closed spec fn view(&self) -> Map<Seq<char>, Seq<char>> {
        map_of(self.entries@)
    }
}

/// A key is in the map exactly when some entry carries it.
pub proof fn lemma_map_of_contains(s: Seq<Attr>, k: Seq<char>)
    ensures
        map_of(s).contains_key(k) <==> exists|i: int| 0 <= i < s.len() && (#[trigger] s[i]).name@ == k,
    decreases s.len(),
{
    if s.len() > 0 {
        lemma_map_of_contains(s.drop_last(), k);
        if s.last().name@ == k {
            assert(s[s.len() - 1].name@ == k);
        } else if map_of(s).contains_key(k) {
            let i = choose|i: int| 0 <= i < s.len() - 1 && (#[trigger] s.drop_last()[i]).name@ == k;
            assert(s[i].name@ == k);
        } else {
            assert forall|i: int| 0 <= i < s.len() implies (#[trigger] s[i]).name@ != k by {
                if i < s.len() - 1 {
                    assert(s.drop_last()[i] == s[i]);
                }
            }
        }
    }
}

/// With distinct names, each entry's value is its name's value in the map.
pub proof fn lemma_map_of_at(s: Seq<Attr>, i: int)
    requires
        names_distinct(s),
        0 <= i < s.len(),
    ensures
        map_of(s).contains_key(s[i].name@),
        map_of(s)[s[i].name@] == s[i].value@,
    decreases s.len(),
{
    lemma_map_of_contains(s, s[i].name@);
    if i < s.len() - 1 {
        assert(names_distinct(s.drop_last())) by {
            assert forall|x: int, y: int|
                0 <= x < y < s.drop_last().len() implies (#[trigger] s.drop_last()[x]).name@
                != (#[trigger] s.drop_last()[y]).name@ by {
                assert(s.drop_last()[x] == s[x]);
                assert(s.drop_last()[y] == s[y]);
            }
        }
        assert(s.drop_last()[i] == s[i]);
        lemma_map_of_at(s.drop_last(), i);
        assert(s[i].name@ != s.last().name@) by {
            assert(s.last() == s[s.len() - 1]);
        }
    }
}

/// Updating an entry in place, keeping its name, updates the map at that name.
proof fn lemma_map_of_update(s: Seq<Attr>, i: int, a2: Attr)
    requires
        names_distinct(s),
        0 <= i < s.len(),
        a2.name@ == s[i].name@,
    ensures
        names_distinct(s.update(i, a2)),
        map_of(s.update(i, a2)) == map_of(s).insert(a2.name@, a2.value@),
    decreases s.len(),
{
    let s2 = s.update(i, a2);
    assert(names_distinct(s2)) by {
        assert forall|x: int, y: int|
            0 <= x < y < s2.len() implies (#[trigger] s2[x]).name@ != (#[trigger] s2[y]).name@ by {
            assert(s2[x].name@ == s[x].name@);
            assert(s2[y].name@ == s[y].name@);
        }
    }
    assert(names_distinct(s.drop_last())) by {
        assert forall|x: int, y: int|
            0 <= x < y < s.drop_last().len() implies (#[trigger] s.drop_last()[x]).name@
            != (#[trigger] s.drop_last()[y]).name@ by {
            assert(s.drop_last()[x] == s[x]);
            assert(s.drop_last()[y] == s[y]);
        }
    }
    if i == s.len() - 1 {
        assert(s2.drop_last() =~= s.drop_last());
        assert(map_of(s2) == map_of(s.drop_last()).insert(a2.name@, a2.value@));
        assert(map_of(s.drop_last()).insert(s.last().name@, s.last().value@).insert(
            a2.name@,
            a2.value@,
        ) =~= map_of(s.drop_last()).insert(a2.name@, a2.value@));
    } else {
        assert(s2.drop_last() =~= s.drop_last().update(i, a2));
        assert(s.drop_last()[i] == s[i]);
        lemma_map_of_update(s.drop_last(), i, a2);
        assert(s2.last() == s.last());
        assert(s.last() == s[s.len() - 1]);
        // the two inserted keys differ, so the inserts commute
        assert(map_of(s.drop_last()).insert(a2.name@, a2.value@).insert(
            s.last().name@,
            s.last().value@,
        ) =~= map_of(s.drop_last()).insert(s.last().name@, s.last().value@).insert(
            a2.name@,
            a2.value@,
        ));
    }
}

impl AttrList {
    /// The underlying entry sequence.
    pub closed spec fn entries_seq(&self) -> Seq<Attr> {
        self.entries@
    }

    /// Names are pairwise distinct.
    pub open spec fn wf(&self) -> bool {
        names_distinct(self.entries_seq())
    }

    /// An empty attribute list.
    pub fn new() -> (r: AttrList)
        ensures
            r@ == Map::<Seq<char>, Seq<char>>::empty(),
            r.wf(),
            r.entries_seq().len() == 0,
    {
        AttrList { entries: Vec::new() }
    }

    pub fn len(&self) -> (r: usize)
        ensures
            r == self.entries_seq().len(),
    {
        self.entries.len()
    }

    /// The name of entry `i`.
    pub fn name_at(&self, i: usize) -> (r: &String)
        requires
            i < self.entries_seq().len(),
        ensures
            r == self.entries_seq()[i as int].name,
    {
        &self.entries[i].name
    }

    /// The value of entry `i`.
    pub fn value_at(&self, i: usize) -> (r: &String)
        requires
            i < self.entries_seq().len(),
        ensures
            r == self.entries_seq()[i as int].value,
    {
        &self.entries[i].value
    }

    /// Look a name up; the result is exactly the view at that name.
    pub fn get(&self, name: &str) -> (r: Option<&String>)
        requires
            self.wf(),
        ensures
            match r {
                Some(v) => self@.contains_key(name@) && v@ == self@[name@],
                None => !self@.contains_key(name@),
            },
    {
        let n = self.entries.len();
        let mut i: usize = 0;
        while i < n
            invariant
                self.wf(),
                i <= n,
                n == self.entries_seq().len(),
                forall|j: int| 0 <= j < i ==> (#[trigger] self.entries_seq()[j]).name@ != name@,
            decreases n - i,
        {
            if str_eq(self.entries[i].name.as_str(), name) {
                proof {
                    lemma_map_of_at(self.entries_seq(), i as int);
                }
                return Some(&self.entries[i].value);
            }
            i = i + 1;
        }
        proof {
            lemma_map_of_contains(self.entries_seq(), name@);
        }
        None
    }

    /// Record a name/value pair, replacing any previous value for the name.
    pub fn set(&mut self, name: &str, value: &str)
        requires
            old(self).wf(),
        ensures
            final(self).wf(),
            final(self)@ == old(self)@.insert(name@, value@),
            final(self).entries_seq().len() <= old(self).entries_seq().len() + 1,
    {
        let n = self.entries.len();
        let mut i: usize = 0;
        while i < n
            invariant
                self == old(self),
                self.wf(),
                i <= n,
                n == self.entries_seq().len(),
                forall|j: int| 0 <= j < i ==> (#[trigger] self.entries_seq()[j]).name@ != name@,
            decreases n - i,
        {
            if str_eq(self.entries[i].name.as_str(), name) {
                let previous = self.entries.remove(i);
                let replacement = Attr { name: previous.name, value: String::from_str(value) };
                proof {
                    assert(old(self).entries_seq().remove(i as int).insert(i as int, replacement)
                        =~= old(self).entries_seq().update(i as int, replacement));
                    lemma_map_of_update(old(self).entries_seq(), i as int, replacement);
                }
                self.entries.insert(i, replacement);
                return ;
            }
            i = i + 1;
        }
        let added = Attr { name: String::from_str(name), value: String::from_str(value) };
        self.entries.push(added);
        proof {
            assert(self.entries@.drop_last() =~= old(self).entries_seq());
            assert(self.wf()) by {
                assert forall|x: int, y: int|
                    0 <= x < y < self.entries@.len() implies (#[trigger] self.entries@[x]).name@
                    != (#[trigger] self.entries@[y]).name@ by {
                    if y < self.entries@.len() - 1 {
                        assert(self.entries@[x] == old(self).entries_seq()[x]);
                        assert(self.entries@[y] == old(self).entries_seq()[y]);
                    } else {
                        assert(self.entries@[x] == old(self).entries_seq()[x]);
                    }
                }
            }
        }
    }

    /// Remove a name and its value, if present.
    pub fn remove(&mut self, name: &str)
        requires
            old(self).wf(),
        ensures
            final(self).wf(),
            final(self)@ == old(self)@.remove(name@),
    {
        let n = self.entries.len();
        let mut i: usize = 0;
        while i < n
            invariant
                self == old(self),
                self.wf(),
                i <= n,
                n == self.entries_seq().len(),
                forall|j: int| 0 <= j < i ==> (#[trigger] self.entries_seq()[j]).name@ != name@,
            decreases n - i,
        {
            if str_eq(self.entries[i].name.as_str(), name) {
                proof {
                    lemma_map_of_remove(old(self).entries_seq(), i as int);
                }
                self.entries.remove(i);
                return ;
            }
            i = i + 1;
        }
        proof {
            lemma_map_of_contains(self.entries_seq(), name@);
            assert(!self@.contains_key(name@));
            assert(self@.remove(name@) =~= self@);
        }
    }

}

/// Removing an entry removes its name from the map.
proof fn lemma_map_of_remove(s: Seq<Attr>, i: int)
    requires
        names_distinct(s),
        0 <= i < s.len(),
    ensures
        names_distinct(s.remove(i)),
        map_of(s.remove(i)) == map_of(s).remove(s[i].name@),
    decreases s.len(),
{
    let s2 = s.remove(i);
    s.remove_ensures(i);
    assert(names_distinct(s2)) by {
        assert forall|x: int, y: int|
            0 <= x < y < s2.len() implies (#[trigger] s2[x]).name@ != (#[trigger] s2[y]).name@ by {
            let x0 = if x < i {
                x
            } else {
                x + 1
            };
            let y0 = if y < i {
                y
            } else {
                y + 1
            };
            assert(s2[x] == s[x0]);
            assert(s2[y] == s[y0]);
        }
    }
    assert(names_distinct(s.drop_last())) by {
        assert forall|x: int, y: int|
            0 <= x < y < s.drop_last().len() implies (#[trigger] s.drop_last()[x]).name@
            != (#[trigger] s.drop_last()[y]).name@ by {
            assert(s.drop_last()[x] == s[x]);
            assert(s.drop_last()[y] == s[y]);
        }
    }
    if i == s.len() - 1 {
        assert(s2 =~= s.drop_last());
        lemma_map_of_contains(s.drop_last(), s[i].name@);
        assert forall|j: int|
            0 <= j < s.drop_last().len() implies (#[trigger] s.drop_last()[j]).name@
            != s[i].name@ by {
            assert(s.drop_last()[j] == s[j]);
        }
        assert(!map_of(s.drop_last()).contains_key(s[i].name@));
        assert(map_of(s.drop_last()).insert(s.last().name@, s.last().value@).remove(s[i].name@)
            =~= map_of(s.drop_last()));
    } else {
        assert(s2.drop_last() =~= s.drop_last().remove(i));
        assert(s.drop_last()[i] == s[i]);
        lemma_map_of_remove(s.drop_last(), i);
        assert(s2.last() == s.last());
        assert(s.last() == s[s.len() - 1]);
        assert(map_of(s.drop_last()).remove(s[i].name@).insert(s.last().name@, s.last().value@)
            =~= map_of(s.drop_last()).insert(s.last().name@, s.last().value@).remove(s[i].name@));
    }
}

/// The way an attribute audit can fail.
#[derive(Debug)]
pub enum AttrMismatch {
    /// A shadow attribute is missing externally; carries the name and the
    /// expected value.
    Missing { name: String, expected: String },
    /// An attribute is present on both sides with different values.
    WrongValue { name: String, expected: String, actual: String },
    /// An external attribute has no shadow counterpart; carries the name.
    Unexpected { name: String },
}

/// Check that a shadow attribute list and an external one denote the same
/// map: every shadow attribute must be present externally with the identical
/// value, and every external attribute must have a shadow counterpart.
pub fn audit_attrs(shadow: &AttrList, external: &AttrList) -> (r: Result<(), AttrMismatch>)
    requires
        shadow.wf(),
        external.wf(),
    ensures
        r is Ok <==> shadow@ == external@,
{
    let ns = shadow.len();
    let mut i: usize = 0;
    while i < ns
        invariant
            shadow.wf(),
            external.wf(),
            i <= ns,
            ns == shadow.entries_seq().len(),
            forall|j: int|
                0 <= j < i ==> external@.contains_key((#[trigger] shadow.entries_seq()[j]).name@)
                    && external@[shadow.entries_seq()[j].name@] == shadow.entries_seq()[j].value@,
        decreases ns - i,
    {
        let name = shadow.name_at(i);
        let expected = shadow.value_at(i);
        proof {
            lemma_map_of_at(shadow.entries_seq(), i as int);
        }
        match external.get(name.as_str()) {
            Some(actual) => {
                if !str_eq(expected.as_str(), actual.as_str()) {
                    return Err(AttrMismatch::WrongValue {
                        name: String::from_str(name.as_str()),
                        expected: String::from_str(expected.as_str()),
                        actual: String::from_str(actual.as_str()),
                    });
                }
            },
            None => {
                return Err(AttrMismatch::Missing {
                    name: String::from_str(name.as_str()),
                    expected: String::from_str(expected.as_str()),
                });
            },
        }
        i = i + 1;
    }
    let ne = external.len();
    let mut k: usize = 0;
    while k < ne
        invariant
            shadow.wf(),
            external.wf(),
            k <= ne,
            ne == external.entries_seq().len(),
            forall|j: int|
                0 <= j < shadow.entries_seq().len() ==> external@.contains_key(
                    (#[trigger] shadow.entries_seq()[j]).name@,
                ) && external@[shadow.entries_seq()[j].name@] == shadow.entries_seq()[j].value@,
            forall|j: int|
                0 <= j < k ==> shadow@.contains_key((#[trigger] external.entries_seq()[j]).name@),
        decreases ne - k,
    {
        let name = external.name_at(k);
        proof {
            lemma_map_of_at(external.entries_seq(), k as int);
        }
        match shadow.get(name.as_str()) {
            Some(_) => {},
            None => {
                return Err(AttrMismatch::Unexpected { name: String::from_str(name.as_str()) });
            },
        }
        k = k + 1;
    }
    proof {
        assert(shadow@ =~= external@) by {
            assert forall|key: Seq<char>| #[trigger]
                shadow@.contains_key(key) implies external@.contains_key(key) && external@[key]
                == shadow@[key] by {
                lemma_map_of_contains(shadow.entries_seq(), key);
                let j = choose|j: int|
                    0 <= j < shadow.entries_seq().len() && (#[trigger] shadow.entries_seq()[j]).name@
                        == key;
                lemma_map_of_at(shadow.entries_seq(), j);
            }
            assert forall|key: Seq<char>| #[trigger]
                external@.contains_key(key) implies shadow@.contains_key(key) by {
                lemma_map_of_contains(external.entries_seq(), key);
            }
        }
    }
    Ok(())
}

} // verus!
