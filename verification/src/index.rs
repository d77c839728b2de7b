//! Registries of secondary indexes and full-text indexes, by name.

use vstd::prelude::*;

verus! {

/// The kind of a secondary index.
#[derive(Debug, Clone, Copy, PartialEq, Eq)]
pub enum IndexType {
    Hash,
    BTree,
}

/// The description of a secondary index.
#[derive(Debug)]
pub struct IndexConfig {
    pub name: String,
    pub index_type: IndexType,
    pub unique: bool,
    /// The JSON path (or other filter) whose values the index holds.
    pub filter: Option<String>,
}

/// An index description, mathematically.
pub struct IndexConfigView {
    pub name: Seq<char>,
    pub index_type: IndexType,
    pub unique: bool,
    pub filter: Option<Seq<char>>,
}

impl View for IndexConfig {
    type V = IndexConfigView;

    open spec fn view(&self) -> IndexConfigView {
        IndexConfigView {
            name: self.name@,
            index_type: self.index_type,
            unique: self.unique,
            filter: match self.filter {
                Some(f) => Some(f@),
                None => None,
            },
        }
    }
}

/// Why an index could not be created.
#[derive(Debug)]
pub enum IndexError {
    /// An index of that name exists already.
    AlreadyExists(String),
}

/// The contents of a sequence of strings.
pub open spec fn string_views(s: Seq<String>) -> Seq<Seq<char>> {
    s.map_values(|x: String| x@)
}

/// Some entry of `names` is `name`.
pub open spec fn name_taken(names: Seq<Seq<char>>, name: Seq<char>) -> bool {
    exists|i: int| 0 <= i < names.len() && names[i] == name
}

/// No name occurs twice.
pub open spec fn names_unique(names: Seq<Seq<char>>) -> bool {
    forall|i: int, j: int| 0 <= i < j < names.len() ==> names[i] != names[j]
}

/// Registering a name that is not taken keeps the names unique; so a registry
/// that only grows by `create_index` never holds a name twice.
pub proof fn lemma_register_keeps_names_unique(names: Seq<Seq<char>>, name: Seq<char>)
    requires
        names_unique(names),
        !name_taken(names, name),
    ensures
        names_unique(names.push(name)),
{
    assert forall|i: int, j: int| 0 <= i < j < names.push(name).len() implies names.push(name)[i]
        != names.push(name)[j] by {
        if j == names.len() {
            assert(names.push(name)[i] == names[i]);
        } else {
            assert(names.push(name)[i] == names[i]);
            assert(names.push(name)[j] == names[j]);
        }
    }
}

/// The names of index descriptions.
pub open spec fn config_names(configs: Seq<IndexConfigView>) -> Seq<Seq<char>> {
    configs.map_values(|c: IndexConfigView| c.name)
}

/// The position of `name` among `names`, if it is there.
fn position_of(names: &Vec<String>, name: &String) -> (pos: Option<usize>)
    ensures
        match pos {
            Some(i) => i < names@.len() && names@[i as int]@ == name@,
            None => !name_taken(string_views(names@), name@),
        },
{
    let mut i: usize = 0;
    while i < names.len()
        invariant
            i <= names@.len(),
            forall|j: int| 0 <= j < i ==> names@[j]@ != name@,
        decreases names@.len() - i,
    {
        if names[i] == *name {
            return Some(i);
        }
        i = i + 1;
    }
    assert forall|j: int| 0 <= j < names@.len() implies #[trigger] string_views(names@)[j] != name@ by {}
    None
}

/// The secondary indexes, in the order they were created.
pub struct IndexManager {
    configs: Vec<IndexConfig>,
}

impl IndexManager {
    /// The index descriptions, in order.
    pub closed spec fn configs(&self) -> Seq<IndexConfigView> {
        self.configs@.map_values(|c: IndexConfig| c@)
    }

    /// No indexes.
    pub fn new() -> (m: Self)
        ensures
            m.configs() == Seq::<IndexConfigView>::empty(),
    {
        let m = IndexManager { configs: Vec::new() };
        assert(m.configs() =~= Seq::<IndexConfigView>::empty());
        m
    }

    /// The number of indexes.
    pub fn len(&self) -> (n: usize)
        ensures
            n == self.configs().len(),
    {
        self.configs.len()
    }

    /// Registers `config`, unless an index of the same name exists.
    pub fn create_index(&mut self, config: IndexConfig) -> (r: Result<(), IndexError>)
        ensures
            name_taken(config_names(old(self).configs()), config.name@) ==> (r matches Err(
                IndexError::AlreadyExists(n),
            ) && n@ == config.name@ && final(self).configs() == old(self).configs()),
            !name_taken(config_names(old(self).configs()), config.name@) ==> r is Ok
                && final(self).configs() == old(self).configs().push(config@),
    {
        let ghost before = self.configs();
        let mut i: usize = 0;
        while i < self.configs.len()
            invariant
                i <= self.configs@.len(),
                before == self.configs@.map_values(|c: IndexConfig| c@),
                forall|j: int| 0 <= j < i ==> self.configs@[j].name@ != config.name@,
            decreases self.configs@.len() - i,
        {
            if self.configs[i].name == config.name {
                assert(config_names(before)[i as int] == config.name@);
                return Err(IndexError::AlreadyExists(config.name));
            }
            i = i + 1;
        }
        assert forall|j: int| 0 <= j < before.len() implies #[trigger] config_names(before)[j]
            != config.name@ by {
            assert(config_names(before)[j] == self.configs@[j].name@);
        }
        let ghost cv = config@;
        self.configs.push(config);
        assert(self.configs() =~= before.push(cv));
        Ok(())
    }
}

/// The full-text indexes, by name, in the order they were created.
pub struct FtsManager {
    names: Vec<String>,
}

impl FtsManager {
    /// The names of the full-text indexes, in order.
    pub closed spec fn index_names(&self) -> Seq<Seq<char>> {
        string_views(self.names@)
    }

    /// No full-text indexes.
    pub fn new() -> (m: Self)
        ensures
            m.index_names() == Seq::<Seq<char>>::empty(),
    {
        let m = FtsManager { names: Vec::new() };
        assert(m.index_names() =~= Seq::<Seq<char>>::empty());
        m
    }

    /// Registers a full-text index called `name`, unless one exists already.
    pub fn create_index(&mut self, name: String) -> (r: Result<(), IndexError>)
        ensures
            name_taken(old(self).index_names(), name@) ==> (r matches Err(
                IndexError::AlreadyExists(n),
            ) && n@ == name@ && final(self).index_names() == old(self).index_names()),
            !name_taken(old(self).index_names(), name@) ==> r is Ok && final(self).index_names()
                == old(self).index_names().push(name@),
    {
        match position_of(&self.names, &name) {
            Some(i) => {
                assert(self.index_names()[i as int] == name@);
                Err(IndexError::AlreadyExists(name))
            },
            None => {
                let ghost before = self.index_names();
                let ghost nv = name@;
                self.names.push(name);
                assert(self.index_names() =~= before.push(nv));
                Ok(())
            },
        }
    }
}

} // verus!
