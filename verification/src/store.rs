//! In-memory model of a credential store: named entries, each with an
//! optional username and an optional password.
use vstd::prelude::*;
use vstd::string::StrSliceExecFns;

verus! {

/// One named credential held by a [`Store`].
#[derive(Debug, Clone, PartialEq)]
pub struct Entry {
    pub name: String,
    pub username: Option<String>,
    pub password: Option<String>,
}

/// The mathematical value of an [`Entry`].
pub ghost struct EntryView {
    pub name: Seq<char>,
    pub username: Option<Seq<char>>,
    pub password: Option<Seq<char>>,
}

/// The sequence of characters held by an optional string field.
pub open spec fn opt_string_view(o: Option<String>) -> Option<Seq<char>> {
    match o {
        Some(s) => Some(s@),
        None => None,
    }
}

impl View for Entry {
    type V = EntryView;

    open spec fn view(&self) -> EntryView {
        EntryView {
            name: self.name@,
            username: opt_string_view(self.username),
            password: opt_string_view(self.password),
        }
    }
}

/// A named collection of entries; the unit of persistence.
#[derive(Debug, Clone, PartialEq)]
pub struct Store {
    pub name: String,
    pub entries: Vec<Entry>,
}

/// The mathematical value of a [`Store`].
pub ghost struct StoreView {
    pub name: Seq<char>,
    pub entries: Seq<EntryView>,
}

/// The entry views corresponding to a sequence of entries.
pub open spec fn entries_view(es: Seq<Entry>) -> Seq<EntryView> {
    Seq::new(es.len(), |i: int| es[i]@)
}

impl View for Store {
    type V = StoreView;

    open spec fn view(&self) -> StoreView {
        StoreView { name: self.name@, entries: entries_view(self.entries@) }
    }
}

/// Whether some entry in `entries` carries the name `name`.
pub open spec fn has_entry_name(entries: Seq<EntryView>, name: Seq<char>) -> bool {
    exists|i: int| 0 <= i < entries.len() && entries[i].name == name
}

/// Whether `i` is the position of the first entry named `name`.
pub open spec fn is_first_match(entries: Seq<EntryView>, name: Seq<char>, i: int) -> bool {
    &&& 0 <= i < entries.len()
    &&& entries[i].name == name
    &&& forall|j: int| 0 <= j < i ==> entries[j].name != name
}

/// Character-for-character equality of two string slices.
pub fn str_eq(a: &str, b: &str) -> (r: bool)
    ensures
        r == (a@ == b@),
{
    let la = a.unicode_len();
    let lb = b.unicode_len();
    if la != lb {
        return false;
    }
    let mut i: usize = 0;
    while i < la
        invariant
            la == a@.len(),
            la == b@.len(),
            i <= la,
            forall|j: int| 0 <= j < i ==> a@[j] == b@[j],
        decreases la - i,
    {
        if a.get_char(i) != b.get_char(i) {
            return false;
        }
        i += 1;
    }
    proof {
        assert(a@ =~= b@);
    }
    true
}

impl Store {
    /// A freshly created store: the given name and no entries.
    pub fn new(name: String) -> (r: Store)
        ensures
            r@.name == name@,
            r@.entries.len() == 0,
    {
        Store { name, entries: Vec::new() }
    }

    /// Whether the store already holds an entry with this exact name.
    pub fn has_entry(&self, name: &str) -> (r: bool)
        ensures
            r == has_entry_name(self@.entries, name@),
    {
        let n = self.entries.len();
        let mut i: usize = 0;
        while i < n
            invariant
                n == self.entries.len(),
                i <= n,
                forall|j: int| 0 <= j < i ==> self@.entries[j].name != name@,
            decreases n - i,
        {
            if str_eq(self.entries[i].name.as_str(), name) {
                proof {
                    assert(self@.entries[i as int].name == name@);
                }
                return true;
            }
            i += 1;
        }
        false
    }

    /// The first entry with this exact name, if any.
    pub fn find_entry<'a>(&'a self, name: &str) -> (r: Option<&'a Entry>)
        ensures
            r is Some <==> has_entry_name(self@.entries, name@),
            r is Some ==> exists|i: int|
                is_first_match(self@.entries, name@, i) && r.unwrap()@ == self@.entries[i],
    {
        let n = self.entries.len();
        let mut i: usize = 0;
        while i < n
            invariant
                n == self.entries.len(),
                i <= n,
                forall|j: int| 0 <= j < i ==> self@.entries[j].name != name@,
            decreases n - i,
        {
            if str_eq(self.entries[i].name.as_str(), name) {
                proof {
                    assert(is_first_match(self@.entries, name@, i as int));
                }
                return Some(&self.entries[i]);
            }
            i += 1;
        }
        None
    }

    /// Append `entry` unless its name is already taken; a `false` result
    /// reports a duplicate and leaves the store untouched.
    pub fn add_entry(&mut self, entry: Entry) -> (r: bool)
        ensures
            r == !has_entry_name(old(self)@.entries, entry@.name),
            r ==> final(self)@.name == old(self)@.name && final(self)@.entries
                == old(self)@.entries.push(entry@),
            !r ==> final(self)@ == old(self)@,
    {
        if self.has_entry(entry.name.as_str()) {
            return false;
        }
        self.entries.push(entry);
        proof {
            assert(self@.entries =~= old(self)@.entries.push(entry@));
        }
        true
    }

    /// Remove the first entry with this exact name; a `false` result reports
    /// that none was found and leaves the store untouched.
    pub fn remove_entry(&mut self, name: &str) -> (r: bool)
        ensures
            r == has_entry_name(old(self)@.entries, name@),
            r ==> final(self)@.name == old(self)@.name && exists|i: int|
                is_first_match(old(self)@.entries, name@, i) && final(self)@.entries == old(
                    self,
                )@.entries.remove(i),
            !r ==> final(self)@ == old(self)@,
    {
        let n = self.entries.len();
        let mut i: usize = 0;
        while i < n
            invariant
                n == self.entries.len(),
                i <= n,
                *self == *old(self),
                forall|j: int| 0 <= j < i ==> self@.entries[j].name != name@,
            decreases n - i,
        {
            if str_eq(self.entries[i].name.as_str(), name) {
                proof {
                    assert(is_first_match(old(self)@.entries, name@, i as int));
                }
                self.entries.remove(i);
                proof {
                    assert(self@.entries =~= old(self)@.entries.remove(i as int));
                }
                return true;
            }
            i += 1;
        }
        false
    }
}

} // verus!
