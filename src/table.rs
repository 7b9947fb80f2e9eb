use vstd::prelude::*;

use crate::palette::name_fits;

verus! {

/// The name that id 1 stands for.
pub open spec fn air_name() -> Seq<char> {
    "minecraft:air"@
}

/// A compact block identifier handed out by a [`BlockTable`]; never zero.
#[derive(Debug, Copy, Clone, Hash, PartialEq, Eq, Structural)]
pub struct BlockId {
    id: u32,
}

impl View for BlockId {
    type V = nat;

    closed spec fn view(&self) -> nat {
        self.id as nat
    }
}

impl BlockId {
    /// The id numbered `n`.
    pub closed spec fn spec_new(n: nat) -> BlockId {
        BlockId { id: n as u32 }
    }

    pub proof fn lemma_spec_new(n: nat)
        requires
            n <= u32::MAX,
        ensures
            Self::spec_new(n)@ == n,
    {
    }

    pub proof fn lemma_spec_new_of_view(id: BlockId)
        ensures
            Self::spec_new(id@) == id,
    {
    }

    /// The id of `minecraft:air`.
    pub fn air() -> (r: BlockId)
        ensures
            r@ == 1,
            r == Self::spec_new(1),
    {
        BlockId { id: 1 }
    }

    /// The number of the id.
    pub fn get(&self) -> (r: u32)
        ensures
            r == self@,
    {
        self.id
    }
}

/// The name table after a `get_id` call on `name`, and the id it returned.
pub open spec fn intern(names: Seq<Seq<char>>, name: Seq<char>) -> (Seq<Seq<char>>, nat) {
    if names.contains(name) {
        (names, (names.index_of(name) + 1) as nat)
    } else {
        (names.push(name), names.len() + 1)
    }
}

/// The name table after `get_id` calls on each of `ns` in turn, and the ids
/// they returned.
pub open spec fn intern_all(names: Seq<Seq<char>>, ns: Seq<Seq<char>>) -> (Seq<Seq<char>>, Seq<nat>)
    decreases ns.len(),
{
    if ns.len() == 0 {
        (names, Seq::empty())
    } else {
        let (n1, ids) = intern_all(names, ns.drop_last());
        let (n2, id) = intern(n1, ns.last());
        (n2, ids.push(id))
    }
}

/// Hash map from block names to ids.
#[verifier::external_body]
pub struct NameIndex {
    map: fnv::FnvHashMap<String, u32>,
}

/// The pairs that a [`NameIndex`] holds.
pub uninterp spec fn name_index_entries(m: NameIndex) -> Map<Seq<char>, u32>;

impl NameIndex {
    /// Relies on `fnv::FnvHashMap` (std's `HashMap` with the FNV hasher):
    /// `default` makes an empty map.
    #[verifier::external_body]
    fn new() -> (r: NameIndex)
        ensures
            name_index_entries(r) =~= Map::empty(),
    {
        NameIndex { map: fnv::FnvHashMap::default() }
    }

    /// Relies on `HashMap::get`: a `String` key is found by a `str` with the
    /// same characters.
    #[verifier::external_body]
    fn get(&self, name: &str) -> (r: Option<u32>)
        ensures
            match r {
                Some(id) => name_index_entries(*self).contains_key(name@) && name_index_entries(
                    *self,
                )[name@] == id,
                None => !name_index_entries(*self).contains_key(name@),
            },
    {
        self.map.get(name).copied()
    }

    /// Relies on `HashMap::insert`: the key now maps to `id`, the others are
    /// unchanged.
    #[verifier::external_body]
    fn insert(&mut self, name: String, id: u32)
        ensures
            name_index_entries(*final(self)) == name_index_entries(*old(self)).insert(name@, id),
    {
        self.map.insert(name, id);
    }
}

/// Bidirectional, append-only interning of block names: id `i` stands for
/// the `i`-th name, and id 1 for `minecraft:air`.
pub struct BlockTable {
    id_to_name: Vec<String>,
    name_to_id: NameIndex,
}

impl BlockTable {
    /// The names, in the order of their ids.
    pub closed spec fn names(&self) -> Seq<Seq<char>> {
        self.id_to_name@.map_values(|s: String| s@)
    }

    pub closed spec fn wf(&self) -> bool {
        let names = self.names();
        let entries = name_index_entries(self.name_to_id);
        &&& names.len() >= 1
        &&& names[0] == air_name()
        &&& names.len() < u32::MAX
        &&& forall|i: int|
            #![trigger names[i]]
            0 <= i < names.len() ==> entries.contains_key(names[i]) && entries[names[i]] == i + 1
        &&& forall|name: Seq<char>|
            #[trigger] entries.contains_key(name) ==> (1 <= entries[name] <= names.len()
                && names[entries[name] - 1] == name)
    }

    pub proof fn lemma_wf(&self)
        requires
            self.wf(),
        ensures
            self.names().len() >= 1,
            self.names()[0] == air_name(),
            self.names().len() < u32::MAX,
            self.names().no_duplicates(),
    {
        let names = self.names();
        let entries = name_index_entries(self.name_to_id);
        assert(names.len() >= 1);
        assert forall|i: int, j: int| 0 <= i < names.len() && 0 <= j < names.len() && i != j implies names[i]
            != names[j] by {
            assert(entries[names[i]] == i + 1);
            assert(entries[names[j]] == j + 1);
        }
    }

    /// A table holding `minecraft:air` as id 1.
    pub fn new() -> (r: BlockTable)
        ensures
            r.wf(),
            r.names() == seq![air_name()],
    {
        let air = "minecraft:air".to_owned();
        let mut name_to_id = NameIndex::new();
        name_to_id.insert(air.clone(), 1);
        let id_to_name = vec![air];
        let r = BlockTable { id_to_name, name_to_id };
        assert(r.names() =~= seq![air_name()]);
        r
    }

    /// Number of names in the table.
    pub fn len(&self) -> (r: usize)
        ensures
            r == self.names().len(),
    {
        self.id_to_name.len()
    }

    /// The id of `name`, allocating the next one for a new name.
    pub fn get_id(&mut self, name: &str) -> (r: BlockId)
        requires
            old(self).wf(),
            old(self).names().len() + 1 < u32::MAX,
            name_fits(name@),
        ensures
            final(self).wf(),
            (final(self).names(), r@) == intern(old(self).names(), name@),
    {
        proof {
            self.lemma_wf();
        }
        let ghost names = self.names();
        match self.name_to_id.get(name) {
            Some(id) => {
                proof {
                    let i = id - 1;
                    assert(names[i] == name@);
                    assert(names.contains(name@));
                    let j = names.index_of(name@);
                    assert(names[j] == name@);
                }
                BlockId { id }
            },
            None => {
                let id = self.id_to_name.len() as u32 + 1;
                proof {
                    if names.contains(name@) {
                        let j = names.index_of(name@);
                        assert(name_index_entries(self.name_to_id).contains_key(names[j]));
                    }
                }
                self.id_to_name.push(name.to_owned());
                self.name_to_id.insert(name.to_owned(), id);
                assert(self.names() =~= names.push(name@));
                BlockId { id }
            },
        }
    }

    /// The name of a block id of this table.
    pub fn get_name(&self, id: BlockId) -> (r: &str)
        requires
            self.wf(),
            1 <= id@ <= self.names().len(),
        ensures
            r@ == self.names()[id@ - 1],
    {
        self.id_to_name[(id.id - 1) as usize].as_str()
    }
}

/// For any sequence of `get_id` calls on a table: each returned id names
/// the name it was asked for, equal names get equal ids and distinct names
/// distinct ids, and the earlier names keep their ids.
pub proof fn lemma_name_table_bijection(names: Seq<Seq<char>>, ns: Seq<Seq<char>>)
    requires
        names.no_duplicates(),
    ensures
        ({
            let (fin, ids) = intern_all(names, ns);
            &&& fin.no_duplicates()
            &&& fin.len() >= names.len()
            &&& fin.subrange(0, names.len() as int) == names
            &&& ids.len() == ns.len()
            &&& forall|k: int| 0 <= k < ns.len() ==> 1 <= #[trigger] ids[k] <= fin.len() && fin[ids[k] - 1] == ns[k]
            &&& forall|j: int, k: int|
                0 <= j < ns.len() && 0 <= k < ns.len() ==> (ns[j] == ns[k] <==> #[trigger] ids[j] == #[trigger] ids[k])
        }),
    decreases ns.len(),
{
    let (fin, ids) = intern_all(names, ns);
    if ns.len() == 0 {
        assert(fin.subrange(0, names.len() as int) =~= names);
    } else {
        let init = ns.drop_last();
        lemma_name_table_bijection(names, init);
        let (n1, ids1) = intern_all(names, init);
        let last = ns.last();
        if n1.contains(last) {
            let j = n1.index_of(last);
            assert(n1[j] == last);
        } else {
            assert(fin == n1.push(last));
            assert forall|a: int, b: int| 0 <= a < fin.len() && 0 <= b < fin.len() && a != b implies fin[a]
                != fin[b] by {
                if a < n1.len() && b < n1.len() {
                } else if a == n1.len() {
                    assert(!n1.contains(last));
                    assert(fin[b] == n1[b]);
                } else {
                    assert(fin[a] == n1[a]);
                }
            }
        }
        assert(fin.subrange(0, names.len() as int) =~= n1.subrange(0, names.len() as int));
        assert forall|k: int| 0 <= k < ns.len() implies 1 <= #[trigger] ids[k] <= fin.len() && fin[ids[k] - 1]
            == ns[k] by {
            if k < init.len() {
                assert(ids[k] == ids1[k]);
                assert(ns[k] == init[k]);
                assert(fin[ids1[k] - 1] == n1[ids1[k] - 1]);
            }
        }
        assert forall|a: int, b: int| 0 <= a < ns.len() && 0 <= b < ns.len() implies (ns[a] == ns[b] <==> #[trigger] ids[a]
            == #[trigger] ids[b]) by {
            assert(fin[ids[a] - 1] == ns[a]);
            assert(fin[ids[b] - 1] == ns[b]);
            if ns[a] == ns[b] && ids[a] != ids[b] {
                assert(fin[ids[a] - 1] == fin[ids[b] - 1]);
            }
        }
    }
}

/// `get_id` calls on names that are all in the table leave the table as it
/// is and return their ids: reading names again allocates nothing.
pub proof fn lemma_intern_known(names: Seq<Seq<char>>, ns: Seq<Seq<char>>)
    requires
        forall|k: int| 0 <= k < ns.len() ==> names.contains(#[trigger] ns[k]),
    ensures
        intern_all(names, ns).0 == names,
        intern_all(names, ns).1.len() == ns.len(),
        forall|k: int| 0 <= k < ns.len() ==> #[trigger] intern_all(names, ns).1[k] == names.index_of(ns[k]) + 1,
    decreases ns.len(),
{
    if ns.len() > 0 {
        let init = ns.drop_last();
        assert forall|k: int| 0 <= k < init.len() implies names.contains(#[trigger] init[k]) by {
            assert(init[k] == ns[k]);
        }
        lemma_intern_known(names, init);
        assert(names.contains(ns[ns.len() - 1]));
        let ids1 = intern_all(names, init).1;
        let ids = intern_all(names, ns).1;
        assert(ids == ids1.push(intern(names, ns.last()).1));
        assert forall|k: int| 0 <= k < ns.len() implies #[trigger] ids[k] == names.index_of(ns[k]) + 1 by {
            if k < init.len() {
                assert(init[k] == ns[k]);
                assert(ids[k] == ids1[k]);
            }
        }
    }
}

} // verus!
