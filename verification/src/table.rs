//! The table that pairs function names with entry blocks.

use vstd::prelude::*;

verus! {

/// The table that a list of registrations stands for: each name with the block
/// of its latest registration among the first `count`.
pub open spec fn entry_map(registrations: Seq<(Seq<char>, int)>, count: nat) -> Map<Seq<char>, int>
    decreases count,
{
    if count == 0 {
        Map::empty()
    } else {
        entry_map(registrations, (count - 1) as nat).insert(
            registrations[count - 1].0,
            registrations[count - 1].1,
        )
    }
}

/// The table that a whole list of registrations stands for.
pub open spec fn entries_of(registrations: Seq<(Seq<char>, int)>) -> Map<Seq<char>, int> {
    entry_map(registrations, registrations.len())
}

/// A name is in the table if and only if some registration has it, and it then
/// has the block of the last one that does.
pub proof fn lemma_entry_map(registrations: Seq<(Seq<char>, int)>, count: nat, name: Seq<char>)
    requires
        count <= registrations.len(),
    ensures
        entry_map(registrations, count).contains_key(name) <==> exists|i: int|
            0 <= i < count && (#[trigger] registrations[i]).0 == name,
        forall|i: int|
            0 <= i < count && registrations[i].0 == name && (forall|j: int|
                i < j < count ==> (#[trigger] registrations[j]).0 != name) ==> entry_map(
                registrations,
                count,
            )[name] == registrations[i].1,
    decreases count,
{
    if count > 0 {
        lemma_entry_map(registrations, (count - 1) as nat, name);
        if registrations[count - 1].0 != name {
            assert forall|i: int|
                0 <= i < count && registrations[i].0 == name && (forall|j: int|
                    i < j < count ==> (#[trigger] registrations[j]).0 != name) implies entry_map(
                registrations,
                count,
            )[name] == registrations[i].1 by {
                assert(i < count - 1);
            }
        }
    }
}

/// A block of the table is the block of some registration.
pub proof fn lemma_entry_values(registrations: Seq<(Seq<char>, int)>, count: nat, name: Seq<char>)
    requires
        count <= registrations.len(),
        entry_map(registrations, count).contains_key(name),
    ensures
        exists|i: int|
            0 <= i < count && (#[trigger] registrations[i]).0 == name && registrations[i].1
                == entry_map(registrations, count)[name],
    decreases count,
{
    if count > 0 {
        if registrations[count - 1].0 == name {
            assert(registrations[count - 1].1 == entry_map(registrations, count)[name]);
        } else {
            lemma_entry_values(registrations, (count - 1) as nat, name);
        }
    }
}

/// Tables of lists that agree on names, with blocks related by `rename`, have
/// the same names, with blocks related by `rename`.
pub proof fn lemma_entry_map_renamed(
    before: Seq<(Seq<char>, int)>,
    after: Seq<(Seq<char>, int)>,
    rename: spec_fn(int) -> int,
    count: nat,
)
    requires
        count <= before.len(),
        before.len() == after.len(),
        forall|i: int|
            0 <= i < before.len() ==> (#[trigger] after[i]).0 == before[i].0 && after[i].1
                == rename(before[i].1),
    ensures
        entry_map(after, count).dom() == entry_map(before, count).dom(),
        forall|name: Seq<char>| #[trigger]
            entry_map(before, count).contains_key(name) ==> entry_map(after, count)[name]
                == rename(entry_map(before, count)[name]),
    decreases count,
{
    if count > 0 {
        lemma_entry_map_renamed(before, after, rename, (count - 1) as nat);
        assert(after[count - 1].0 == before[count - 1].0);
        assert(entry_map(after, count).dom() =~= entry_map(before, count).dom());
    }
}

/// One registration: a function's name and the index of its entry block.
pub struct FunctionEntry {
    pub name: String,
    pub block: usize,
}

/// The registrations of a program, in the order in which they were made. A
/// name that is registered again takes the later block.
pub struct FunctionTable {
    pub registrations: Vec<FunctionEntry>,
}

impl View for FunctionTable {
    type V = Seq<(Seq<char>, int)>;

    open spec fn view(&self) -> Seq<(Seq<char>, int)> {
        Seq::new(
            self.registrations@.len(),
            |i: int| (self.registrations@[i].name@, self.registrations@[i].block as int),
        )
    }
}

impl FunctionTable {
    /// The empty table.
    pub fn new() -> (table: FunctionTable)
        ensures
            table@ == Seq::<(Seq<char>, int)>::empty(),
    {
        let table = FunctionTable { registrations: Vec::new() };
        assert(table@ =~= Seq::<(Seq<char>, int)>::empty());
        table
    }

    /// Adds a registration at the end.
    pub fn register(&mut self, name: String, block: usize)
        ensures
            final(self)@ == old(self)@.push((name@, block as int)),
    {
        self.registrations.push(FunctionEntry { name, block });
        assert(self@ =~= old(self)@.push((name@, block as int)));
    }

    /// The block that `name` stands for, if it was registered.
    pub fn lookup(&self, name: &String) -> (found: Option<usize>)
        ensures
            found is Some <==> entries_of(self@).contains_key(name@),
            found is Some ==> found->0 as int == entries_of(self@)[name@],
    {
        let mut i: usize = self.registrations.len();
        while i > 0
            invariant
                i <= self.registrations.len(),
                forall|j: int| i <= j < self.registrations.len() ==> (#[trigger] self@[j]).0 != name@,
            decreases i,
        {
            i -= 1;
            if self.registrations[i].name == *name {
                proof {
                    assert(self@[i as int].0 == name@);
                    lemma_entry_map(self@, self@.len(), name@);
                }
                return Some(self.registrations[i].block);
            }
        }
        proof {
            lemma_entry_map(self@, self@.len(), name@);
        }
        None
    }

    /// Whether every registration names a block below `bound`.
    pub fn all_below(&self, bound: usize) -> (all: bool)
        ensures
            all <==> forall|i: int| 0 <= i < self@.len() ==> (#[trigger] self@[i]).1 < bound,
    {
        let mut i: usize = 0;
        while i < self.registrations.len()
            invariant
                i <= self.registrations.len(),
                forall|j: int| 0 <= j < i ==> (#[trigger] self@[j]).1 < bound,
            decreases self.registrations.len() - i,
        {
            if self.registrations[i].block >= bound {
                assert(!(self@[i as int].1 < bound));
                return false;
            }
            i += 1;
        }
        true
    }

    /// The same names in the same order, each with the block that `mapping`
    /// holds at the index of its old block.
    pub fn renumbered(&self, mapping: &Vec<usize>) -> (table: FunctionTable)
        requires
            forall|i: int| 0 <= i < self@.len() ==> (#[trigger] self@[i]).1 < mapping@.len(),
        ensures
            table@.len() == self@.len(),
            forall|i: int|
                0 <= i < self@.len() ==> (#[trigger] table@[i]).0 == self@[i].0 && table@[i].1
                    == mapping@[self@[i].1],
    {
        let mut table = FunctionTable { registrations: Vec::new() };
        let mut i: usize = 0;
        while i < self.registrations.len()
            invariant
                i <= self.registrations.len(),
                table@.len() == i,
                forall|j: int| 0 <= j < self@.len() ==> (#[trigger] self@[j]).1 < mapping@.len(),
                forall|j: int|
                    0 <= j < i ==> (#[trigger] table@[j]).0 == self@[j].0 && table@[j].1
                        == mapping@[self@[j].1],
            decreases self.registrations.len() - i,
        {
            let entry = &self.registrations[i];
            assert(self@[i as int].1 == entry.block);
            let ghost earlier = table@;
            table.registrations.push(
                FunctionEntry { name: entry.name.clone(), block: mapping[entry.block] },
            );
            assert forall|j: int| 0 <= j < i + 1 implies (#[trigger] table@[j]).0 == self@[j].0
                && table@[j].1 == mapping@[self@[j].1] by {
                if j < i {
                    assert(table@[j] == earlier[j]);
                }
            }
            i += 1;
        }
        table
    }
}

} // verus!
