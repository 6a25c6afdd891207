//! The table that gives each profile name its id.

use crate::model::ANY_PROFILE;
use vstd::prelude::*;
use vstd::string::StringExecFns;

verus! {

/// The name of the profile with id `DEFAULT_PROFILE`.
pub open spec fn default_name() -> Seq<char> {
    "default"@
}

/// The name that stands for `ANY_PROFILE`.
pub open spec fn any_name() -> Seq<char> {
    "any"@
}

/// What holds of the names of a table, listed by id: `default` comes first,
/// `any` is not among them, and no name has two ids.
pub open spec fn names_wf(names: Seq<Seq<char>>) -> bool {
    &&& 1 <= names.len() <= isize::MAX
    &&& names[0] == default_name()
    &&& !names.contains(any_name())
    &&& names.no_duplicates()
}

/// The id that `names` gives to `name`, if it has one.
pub open spec fn id_of(names: Seq<Seq<char>>, name: Seq<char>) -> Option<isize> {
    if name == any_name() {
        Some(ANY_PROFILE)
    } else if names.contains(name) {
        Some(names.index_of(name) as isize)
    } else {
        None
    }
}

/// The names after `name` has been given an id: unchanged where it had one,
/// and with `name` last where it had none.
pub open spec fn with_name(names: Seq<Seq<char>>, name: Seq<char>) -> Seq<Seq<char>> {
    if id_of(names, name) is Some {
        names
    } else {
        names.push(name)
    }
}

/// The id of `name` once it has one: the one it had, or else the next free
/// one.
pub open spec fn id_in(names: Seq<Seq<char>>, name: Seq<char>) -> isize {
    match id_of(names, name) {
        Some(id) => id,
        None => names.len() as isize,
    }
}

/// Giving a name an id keeps a table well formed, as long as ids are left.
pub proof fn lemma_with_name_wf(names: Seq<Seq<char>>, name: Seq<char>)
    requires
        names_wf(names),
        names.len() < isize::MAX,
    ensures
        names_wf(with_name(names, name)),
        names.len() <= with_name(names, name).len() <= names.len() + 1,
        id_of(with_name(names, name), name) == Some(id_in(names, name)),
        forall|other: Seq<char>|
            id_of(names, other) is Some ==> id_of(with_name(names, name), other) == id_of(
                names,
                other,
            ),
{
    let after = with_name(names, name);
    if id_of(names, name) is None {
        assert(after[names.len() as int] == name);
        assert forall|other: Seq<char>| id_of(names, other) is Some implies id_of(after, other)
            == id_of(names, other) by {
            if other != any_name() {
                let i = names.index_of(other);
                assert(after[i] == other);
                let j = after.index_of(other);
                assert(after[j] == other);
            }
        }
        let j = after.index_of(name);
        assert(after[j] == name);
    }
}

/// Profile names and their ids. `default` has id `DEFAULT_PROFILE` and `any`
/// stands for `ANY_PROFILE`; every other name gets the next positive id when
/// it is first met.
#[derive(Debug)]
pub struct ProfileTable {
    names: Vec<String>,
}

impl View for ProfileTable {
    type V = Seq<Seq<char>>;

    /// The names that have an id of their own, listed by id.
    closed spec fn view(&self) -> Seq<Seq<char>> {
        self.names.deep_view()
    }
}

impl ProfileTable {
    /// The table's invariant.
    pub open spec fn wf(&self) -> bool {
        names_wf(self@)
    }

    /// The table that knows `default` and `any` only.
    pub fn new() -> (table: ProfileTable)
        ensures
            table@ == seq![default_name()],
            table.wf(),
    {
        let mut names: Vec<String> = Vec::new();
        names.push(String::from_str("default"));
        let table = ProfileTable { names };
        proof {
            reveal_strlit("default");
            reveal_strlit("any");
            assert(table@ =~= seq![default_name()]);
            assert(default_name().len() == 7);
            assert(any_name().len() == 3);
        }
        table
    }

    /// How many names have an id of their own.
    pub fn len(&self) -> (n: usize)
        ensures
            n == self@.len(),
    {
        self.names.len()
    }

    /// The name with id `id`.
    pub fn name(&self, id: usize) -> (name: &String)
        requires
            id < self@.len(),
        ensures
            name@ == self@[id as int],
    {
        &self.names[id]
    }

    /// The id of `name`, if it has one.
    pub fn lookup(&self, name: &str) -> (id: Option<isize>)
        requires
            self.wf(),
        ensures
            id == id_of(self@, name@),
    {
        let wanted = String::from_str(name);
        if wanted == String::from_str("any") {
            return Some(ANY_PROFILE);
        }
        let mut i: usize = 0;
        while i < self.names.len()
            invariant
                i <= self.names.len(),
                self.wf(),
                wanted@ == name@,
                forall|k: int| 0 <= k < i ==> self@[k] != name@,
            decreases self.names.len() - i,
        {
            if self.names[i] == wanted {
                proof {
                    let found = self@.index_of(name@);
                    assert(self@[i as int] == name@);
                    assert(self@[found] == name@);
                }
                return Some(i as isize);
            }
            i += 1;
        }
        None
    }

    /// The id of `name`, which gets the next free id if it has none yet.
    pub fn get_or_insert(&mut self, name: &str) -> (id: isize)
        requires
            old(self).wf(),
            old(self)@.len() < isize::MAX,
        ensures
            final(self).wf(),
            final(self)@ == with_name(old(self)@, name@),
            id == id_in(old(self)@, name@),
    {
        proof {
            lemma_with_name_wf(self@, name@);
        }
        match self.lookup(name) {
            Some(id) => id,
            None => {
                let id = self.names.len() as isize;
                self.names.push(String::from_str(name));
                proof {
                    assert(self@ =~= old(self)@.push(name@));
                }
                id
            },
        }
    }
}

} // verus!
