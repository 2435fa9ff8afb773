//! A table of pane managers by name: the profiles of a screen manager.

use vstd::prelude::*;
use crate::window::layout::PaneModel;
use crate::window::pane::PaneManager;

verus! {

/// Some entry of `names` spells `name`.
pub open spec fn listed(names: Seq<String>, name: Seq<char>) -> bool {
    exists|i: int| 0 <= i < names.len() && (#[trigger] names[i])@ == name
}

/// The place of `name` in `names`.
pub open spec fn place_of(names: Seq<String>, name: Seq<char>) -> int {
    choose|i: int| 0 <= i < names.len() && (#[trigger] names[i])@ == name
}

/// No two entries of `names` spell the same name.
pub open spec fn distinct(names: Seq<String>) -> bool {
    forall|i: int, j: int|
        0 <= i < j < names.len() ==> (#[trigger] names[i])@ != (#[trigger] names[j])@
}

/// The table that pairs each of `names` with the manager in the same place.
pub open spec fn paired(names: Seq<String>, managers: Seq<PaneManager>) -> Map<
    Seq<char>,
    PaneModel,
> {
    Map::new(
        |name: Seq<char>| listed(names, name),
        |name: Seq<char>| managers[place_of(names, name)]@,
    )
}

/// With distinct names, the place of the name in place `i` is `i`.
pub proof fn lemma_place(names: Seq<String>, i: int)
    requires
        distinct(names),
        0 <= i < names.len(),
    ensures
        listed(names, names[i]@),
        place_of(names, names[i]@) == i,
{
    let name = names[i]@;
    let p = place_of(names, name);
    assert(names[i]@ == name);
    if p < i {
        assert(names[p]@ != names[i]@);
    } else if i < p {
        assert(names[i]@ != names[p]@);
    }
}

/// Putting another manager in place `i` changes the table at that name and
/// nowhere else.
pub proof fn lemma_paired_update(
    names: Seq<String>,
    managers: Seq<PaneManager>,
    i: int,
    manager: PaneManager,
)
    requires
        distinct(names),
        names.len() == managers.len(),
        0 <= i < names.len(),
    ensures
        paired(names, managers.update(i, manager)) == paired(names, managers).insert(
            names[i]@,
            manager@,
        ),
{
    let before = paired(names, managers);
    let after = paired(names, managers.update(i, manager));
    lemma_place(names, i);
    assert forall|name: Seq<char>| #[trigger] after.dom().contains(name) implies after[name]
        == before.insert(names[i]@, manager@)[name] by {
        let p = place_of(names, name);
        if name != names[i]@ {
            assert(p != i);
        }
    }
    assert(after =~= before.insert(names[i]@, manager@));
}

/// Adding a new name with its manager at the end adds that entry to the
/// table.
pub proof fn lemma_paired_push(
    names: Seq<String>,
    managers: Seq<PaneManager>,
    name: String,
    manager: PaneManager,
)
    requires
        distinct(names),
        names.len() == managers.len(),
        !listed(names, name@),
    ensures
        distinct(names.push(name)),
        paired(names.push(name), managers.push(manager)) == paired(names, managers).insert(
            name@,
            manager@,
        ),
{
    let longer = names.push(name);
    let before = paired(names, managers);
    let after = paired(longer, managers.push(manager));
    assert forall|i: int, j: int| 0 <= i < j < longer.len() implies (#[trigger] longer[i])@ != (
    #[trigger] longer[j])@ by {
        if j == names.len() {
            assert(longer[i] == names[i]);
            assert(names[i]@ != name@);
        } else {
            assert(longer[i] == names[i] && longer[j] == names[j]);
        }
    }
    assert forall|n: Seq<char>| listed(longer, n) <==> (n == name@ || listed(names, n)) by {
        if listed(longer, n) {
            let p = place_of(longer, n);
            if p < names.len() {
                assert(names[p]@ == n);
            }
        }
        if n == name@ {
            assert(longer[names.len() as int]@ == n);
        }
        if listed(names, n) {
            let p = place_of(names, n);
            assert(longer[p]@ == n);
        }
    }
    assert forall|n: Seq<char>| #[trigger] after.dom().contains(n) implies after[n]
        == before.insert(name@, manager@)[n] by {
        let p = place_of(longer, n);
        if n == name@ {
            lemma_place(longer, names.len() as int);
        } else {
            assert(p < names.len());
            assert(names[p]@ == n);
            let q = place_of(names, n);
            lemma_place(names, p);
            assert(q == p);
        }
    }
    assert(after =~= before.insert(name@, manager@));
}

/// Pane managers by name. A name occurs at most once.
pub struct ProfileTable {
    names: Vec<String>,
    managers: Vec<PaneManager>,
}

impl View for ProfileTable {
    type V = Map<Seq<char>, PaneModel>;

    closed spec fn view(&self) -> Map<Seq<char>, PaneModel> {
        paired(self.names@, self.managers@)
    }
}

impl ProfileTable {
    /// The table is in order: no name occurs twice, and every manager in it
    /// is in order.
    pub closed spec fn wf(&self) -> bool {
        &&& self.names.len() == self.managers.len()
        &&& distinct(self.names@)
        &&& forall|i: int| 0 <= i < self.managers.len() ==> (#[trigger] self.managers[i]).wf()
    }

    /// The names in the order in which they were first registered.
    pub closed spec fn order(&self) -> Seq<Seq<char>> {
        Seq::new(self.names.len() as nat, |i: int| self.names[i]@)
    }

    /// The order lists the names of the table, each once.
    pub proof fn lemma_order(&self)
        requires
            self.wf(),
        ensures
            forall|name: Seq<char>| self@.dom().contains(name) <==> self.order().contains(name),
            self.order().no_duplicates(),
    {
        let order = self.order();
        assert forall|name: Seq<char>| self@.dom().contains(name) <==> order.contains(name) by {
            if self@.dom().contains(name) {
                let p = place_of(self.names@, name);
                assert(order[p] == name);
            }
            if order.contains(name) {
                let p = choose|p: int| 0 <= p < order.len() && order[p] == name;
                assert(self.names@[p]@ == name);
            }
        }
        assert forall|i: int, j: int| 0 <= i < order.len() && 0 <= j < order.len() && i != j implies order[i]
            != order[j] by {
            if i < j {
                assert(self.names@[i]@ != self.names@[j]@);
            } else {
                assert(self.names@[j]@ != self.names@[i]@);
            }
        }
    }

    /// A manager of a table that is in order is in order.
    pub proof fn lemma_entries_wf(&self, name: Seq<char>)
        requires
            self.wf(),
            self@.dom().contains(name),
        ensures
            self@[name].well_formed(),
    {
        let p = place_of(self.names@, name);
        assert(self.managers[p].wf());
    }

    /// A table without entries.
    pub fn new() -> (table: ProfileTable)
        ensures
            table.wf(),
            table@ == Map::<Seq<char>, PaneModel>::empty(),
    {
        let table = ProfileTable { names: Vec::new(), managers: Vec::new() };
        proof {
            assert(table@ =~= Map::<Seq<char>, PaneModel>::empty());
        }
        table
    }

    /// Where `name` stands in the table.
    fn position(&self, name: &str) -> (found: Option<usize>)
        requires
            self.wf(),
        ensures
            match found {
                Some(i) => i < self.names.len() && self.names[i as int]@ == name@ && listed(
                    self.names@,
                    name@,
                ) && place_of(self.names@, name@) == i,
                None => !listed(self.names@, name@),
            },
    {
        let key = name.to_owned();
        let mut i: usize = 0;
        while i < self.names.len()
            invariant
                0 <= i <= self.names.len(),
                self.wf(),
                key@ == name@,
                forall|j: int| 0 <= j < i ==> (#[trigger] self.names[j])@ != name@,
            decreases self.names.len() - i,
        {
            if self.names[i] == key {
                proof {
                    lemma_place(self.names@, i as int);
                }
                return Some(i);
            }
            i = i + 1;
        }
        None
    }

    /// Whether a manager is registered under `name`.
    pub fn contains(&self, name: &str) -> (found: bool)
        requires
            self.wf(),
        ensures
            found == self@.dom().contains(name@),
    {
        self.position(name).is_some()
    }

    /// Registers `manager` under `name`, in place of the manager that had
    /// that name, if there was one.
    pub fn insert(&mut self, name: &str, manager: PaneManager)
        requires
            old(self).wf(),
            manager.wf(),
        ensures
            final(self).wf(),
            final(self)@ == old(self)@.insert(name@, manager@),
    {
        match self.position(name) {
            Some(i) => {
                proof {
                    lemma_paired_update(self.names@, self.managers@, i as int, manager);
                }
                self.managers.set(i, manager);
            },
            None => {
                let key = name.to_owned();
                proof {
                    lemma_paired_push(self.names@, self.managers@, key, manager);
                }
                self.names.push(key);
                self.managers.push(manager);
            },
        }
    }

    /// The manager registered under `name`.
    pub fn get(&self, name: &str) -> (found: Option<&PaneManager>)
        requires
            self.wf(),
        ensures
            match found {
                Some(manager) => self@.dom().contains(name@) && manager@ == self@[name@]
                    && manager.wf(),
                None => !self@.dom().contains(name@),
            },
    {
        match self.position(name) {
            Some(i) => Some(&self.managers[i]),
            None => None,
        }
    }

    /// The manager registered under `name`, for changing it. The table stays
    /// in order as long as the manager does.
    pub fn get_mut(&mut self, name: &str) -> (found: Option<&mut PaneManager>)
        requires
            old(self).wf(),
        ensures
            match found {
                Some(manager) => {
                    &&& old(self)@.dom().contains(name@)
                    &&& manager@ == old(self)@[name@]
                    &&& manager.wf()
                    &&& final(self)@ == old(self)@.insert(name@, final(manager)@)
                    &&& (final(manager).wf() ==> final(self).wf())
                },
                None => !old(self)@.dom().contains(name@) && *final(self) == *old(self),
            },
    {
        let ghost names = self.names@;
        let ghost managers = self.managers@;
        match self.position(name) {
            Some(i) => {
                let manager = &mut self.managers[i];
                proof {
                    assert forall|now: PaneManager|
                        {
                            let after = #[trigger] managers.update(i as int, now);
                            &&& paired(names, after) == paired(names, managers).insert(name@, now@)
                            &&& (now.wf() ==> forall|j: int|
                                0 <= j < after.len() ==> (#[trigger] after[j]).wf())
                        } by {
                        lemma_paired_update(names, managers, i as int, now);
                    }
                    assert(managers.update(i as int, *final(manager)).len() == managers.len());
                }
                Some(manager)
            },
            None => None,
        }
    }

    /// The names of the table, in the order in which they were first
    /// registered.
    pub fn names(&self) -> (list: Vec<String>)
        requires
            self.wf(),
        ensures
            list@.len() == self.order().len(),
            forall|i: int| 0 <= i < list@.len() ==> (#[trigger] list@[i])@ == self.order()[i],
    {
        let mut list: Vec<String> = Vec::new();
        let mut i: usize = 0;
        while i < self.names.len()
            invariant
                0 <= i <= self.names.len(),
                list@.len() == i,
                forall|j: int| 0 <= j < i ==> (#[trigger] list@[j])@ == self.names[j]@,
            decreases self.names.len() - i,
        {
            list.push(self.names[i].clone());
            i = i + 1;
        }
        list
    }
}

} // verus!
