//! The catalog: the tables of a database, each with its schema and its
//! engine.
//!
//! The catalog decides; the caller keeps the manifest file and the table
//! directories in step with it by carrying out the effects that it returns.

use vstd::prelude::*;
use vstd::string::StringExecFns;
use super::error::{QueryError, QueryErrorView};
use crate::metadata::table::Table;
use crate::storage::discovery::{file_views, newest_first, next_table_id, TableFile};
use crate::storage::lsm_engine::{
    effect_views, file_path, flushed, lazy_tables, roll_refusal, Effect, EngineError, EngineView,
    LSMEngine,
};
use crate::text::same_text;

verus! {

/// The number of records that the memtable of a table takes.
pub const MEMTABLE_SIZE: usize = 100;

/// Something the caller is to do to the database directory.
#[derive(Debug)]
pub enum CatalogEffect {
    /// Create the directory at `path`, with an empty journal in it.
    CreateTableDir { path: String },
    /// Delete the directory at `path` and all that is in it; it is no error
    /// if that fails.
    RemoveTableDir { path: String },
    /// Write the manifest anew from the schemas that the catalog holds.
    SaveManifest,
}

/// What a catalog effect asks for.
pub enum CatalogEffectView {
    CreateTableDir { path: Seq<char> },
    RemoveTableDir { path: Seq<char> },
    SaveManifest,
}

impl View for CatalogEffect {
    type V = CatalogEffectView;

    open spec fn view(&self) -> CatalogEffectView {
        match self {
            CatalogEffect::CreateTableDir { path } => CatalogEffectView::CreateTableDir { path: path@ },
            CatalogEffect::RemoveTableDir { path } => CatalogEffectView::RemoveTableDir { path: path@ },
            CatalogEffect::SaveManifest => CatalogEffectView::SaveManifest,
        }
    }
}

/// One table of the catalog.
struct Entry {
    name: String,
    table: Table,
    engine: LSMEngine,
}

/// What a catalog is: the database directory and, for each table in the
/// order in which the tables came, its name, its schema and its engine.
pub struct CatalogView {
    pub dir: Seq<char>,
    pub names: Seq<Seq<char>>,
    pub schemas: Seq<Table>,
    pub engines: Seq<EngineView>,
}

/// The tables of a database.
pub struct Catalog {
    entries: Vec<Entry>,
    data_dir: String,
}

/// The place of the table `name` among `names`, where there is one.
pub open spec fn has_table(names: Seq<Seq<char>>, name: Seq<char>) -> bool {
    exists|i: int| 0 <= i < names.len() && #[trigger] names[i] == name
}

/// Whether `new` is `old` without the table `name`, which stood at place `i`.
pub open spec fn taken_out(old: CatalogView, new: CatalogView, name: Seq<char>, i: int) -> bool {
    &&& 0 <= i < old.names.len()
    &&& old.names[i] == name
    &&& new.names == old.names.remove(i)
    &&& new.schemas == old.schemas.remove(i)
    &&& new.engines == old.engines.remove(i)
}

/// The message for a table that is there already.
pub open spec fn exists_message(name: Seq<char>) -> Seq<char> {
    "Table "@ + name + " already exists"@
}

impl View for Catalog {
    type V = CatalogView;

    closed spec fn view(&self) -> CatalogView {
        CatalogView {
            dir: self.data_dir@,
            names: self.entries@.map_values(|e: Entry| e.name@),
            schemas: self.entries@.map_values(|e: Entry| e.table),
            engines: self.entries@.map_values(|e: Entry| e.engine@),
        }
    }
}

impl Catalog {
    /// Whether no name stands twice and every engine is well formed.
    pub closed spec fn wf(&self) -> bool {
        &&& forall|i: int, j: int|
            0 <= i < j < self.entries@.len() ==> (#[trigger] self.entries@[i]).name@
                != (#[trigger] self.entries@[j]).name@
        &&& forall|i: int| 0 <= i < self.entries@.len() ==> (#[trigger] self.entries@[i]).engine.wf()
    }

    /// What a well-formed catalog holds: as many schemas and engines as
    /// names, and no name twice.
    pub proof fn lemma_wf(&self)
        requires
            self.wf(),
        ensures
            self@.schemas.len() == self@.names.len(),
            self@.engines.len() == self@.names.len(),
            forall|i: int, j: int|
                0 <= i < j < self@.names.len() ==> (#[trigger] self@.names[i]) != (
                #[trigger] self@.names[j]),
    {
        assert forall|i: int, j: int| 0 <= i < j < self@.names.len() implies (
        #[trigger] self@.names[i]) != (#[trigger] self@.names[j]) by {
            assert(self.entries@[i].name@ != self.entries@[j].name@);
        }
    }

    /// A catalog without tables for the database directory `data_dir`.
    pub fn new(data_dir: &str) -> (r: Self)
        ensures
            r.wf(),
            r@.dir == data_dir@,
            r@.names.len() == 0,
            r@.schemas.len() == 0,
            r@.engines.len() == 0,
    {
        Self { entries: Vec::new(), data_dir: data_dir.to_owned() }
    }

    /// The database directory.
    pub fn data_dir(&self) -> (r: &str)
        ensures
            r@ == self@.dir,
    {
        self.data_dir.as_str()
    }

    /// The directory of the table `name`.
    pub fn table_dir(&self, name: &str) -> (r: String)
        ensures
            r@ == file_path(self@.dir, name@),
    {
        let mut path = self.data_dir.clone();
        path.append("/");
        path.append(name);
        proof {
            assert(path@ =~= file_path(self@.dir, name@));
        }
        path
    }

    /// The place of the table `name`.
    pub fn find(&self, name: &str) -> (r: Option<usize>)
        ensures
            match r {
                Some(i) => i < self@.names.len() && self@.names[i as int] == name@,
                None => !has_table(self@.names, name@),
            },
    {
        let mut i: usize = 0;
        while i < self.entries.len()
            invariant
                i <= self.entries@.len(),
                forall|k: int| 0 <= k < i ==> #[trigger] self@.names[k] != name@,
            decreases self.entries@.len() - i,
        {
            if same_text(self.entries[i].name.as_str(), name) {
                return Some(i);
            }
            i += 1;
        }
        None
    }

    /// The names of the tables, in the order in which the tables came.
    pub fn list_tables(&self) -> (r: Vec<String>)
        ensures
            r@.map_values(|s: String| s@) == self@.names,
    {
        let mut names: Vec<String> = Vec::new();
        let mut i: usize = 0;
        while i < self.entries.len()
            invariant
                i <= self.entries@.len(),
                names@.len() == i,
                self@.names.len() == self.entries@.len(),
                names@.map_values(|s: String| s@) == self@.names.subrange(0, i as int),
            decreases self.entries@.len() - i,
        {
            let ghost before = names@.map_values(|s: String| s@);
            let name = self.entries[i].name.clone();
            names.push(name);
            proof {
                let now = names@.map_values(|s: String| s@);
                assert(now.len() == i + 1);
                assert forall|k: int| 0 <= k < i + 1 implies now[k] == self@.names.subrange(
                    0,
                    i + 1,
                )[k] by {
                    if k < i {
                        assert(now[k] == before[k]);
                        assert(before[k] == self@.names.subrange(0, i as int)[k]);
                    } else {
                        assert(now[k] == name@);
                        assert(self@.names[i as int] == self.entries@[i as int].name@);
                    }
                }
                assert(now =~= self@.names.subrange(0, i + 1));
            }
            i += 1;
        }
        proof {
            assert(self@.names.subrange(0, i as int) =~= self@.names);
        }
        names
    }

    /// The number of tables.
    pub fn table_count(&self) -> (r: usize)
        ensures
            r == self@.names.len(),
    {
        self.entries.len()
    }

    /// The schema of the table at place `index`.
    pub fn schema(&self, index: usize) -> (r: Option<&Table>)
        ensures
            match r {
                Some(table) => index < self@.schemas.len() && *table == self@.schemas[index as int],
                None => index >= self@.schemas.len(),
            },
    {
        if index < self.entries.len() {
            Some(&self.entries[index].table)
        } else {
            None
        }
    }

    /// The engine of the table at place `index`.
    pub fn engine(&self, index: usize) -> (r: Option<&LSMEngine>)
        requires
            self.wf(),
        ensures
            match r {
                Some(engine) => index < self@.engines.len() && engine@ == self@.engines[index as int]
                    && engine.wf(),
                None => index >= self@.engines.len(),
            },
    {
        if index < self.entries.len() {
            Some(&self.entries[index].engine)
        } else {
            None
        }
    }

    /// The engine of the table at place `index`, to work with. The catalog is
    /// as it was but for what is done to that engine.
    pub fn engine_mut(&mut self, index: usize) -> (r: Option<&mut LSMEngine>)
        requires
            old(self).wf(),
        ensures
            match r {
                Some(engine) => {
                    &&& index < old(self)@.engines.len()
                    &&& engine@ == old(self)@.engines[index as int]
                    &&& engine.wf()
                    &&& final(self)@.dir == old(self)@.dir
                    &&& final(self)@.names =~= old(self)@.names
                    &&& final(self)@.schemas =~= old(self)@.schemas
                    &&& final(self)@.engines =~= old(self)@.engines.update(
                        index as int,
                        final(engine)@,
                    )
                    &&& final(engine).wf() ==> final(self).wf()
                },
                None => {
                    &&& index >= old(self)@.engines.len()
                    &&& final(self)@ == old(self)@
                    &&& final(self).wf()
                },
            },
    {
        if index < self.entries.len() {
            Some(&mut self.entries[index].engine)
        } else {
            None
        }
    }

    /// Flushes the engine of every table, in the order of the tables, and
    /// stops at the first engine that refuses. The result holds the effects
    /// of each engine that was flushed, and the refusal if there was one:
    /// it is that of the engine at the place that follows the last flushed.
    pub fn flush_all(&mut self) -> (r: (Vec<Vec<Effect>>, Option<EngineError>))
        requires
            old(self).wf(),
        ensures
            final(self).wf(),
            final(self)@.dir == old(self)@.dir,
            final(self)@.names == old(self)@.names,
            final(self)@.schemas == old(self)@.schemas,
            final(self)@.engines.len() == old(self)@.engines.len(),
            r.0@.len() <= old(self)@.engines.len(),
            forall|i: int|
                0 <= i < r.0@.len() ==> flushed(
                    old(self)@.engines[i],
                    final(self)@.engines[i],
                    effect_views((#[trigger] r.0@[i])@),
                ),
            forall|i: int|
                r.0@.len() <= i < old(self)@.engines.len() ==> #[trigger] final(self)@.engines[i]
                    == old(self)@.engines[i],
            match r.1 {
                Some(e) => r.0@.len() < old(self)@.engines.len() && roll_refusal(
                    old(self)@.engines[r.0@.len() as int],
                    e,
                ),
                None => r.0@.len() == old(self)@.engines.len(),
            },
    {
        let mut done: Vec<Vec<Effect>> = Vec::new();
        let mut i: usize = 0;
        let n = self.entries.len();
        while i < n
            invariant
                i <= n,
                n == self.entries@.len(),
                n == old(self).entries@.len(),
                self.wf(),
                self.data_dir == old(self).data_dir,
                done@.len() == i,
                forall|k: int|
                    0 <= k < n ==> (#[trigger] self.entries@[k]).name == old(self).entries@[k].name
                        && self.entries@[k].table == old(self).entries@[k].table,
                forall|k: int|
                    0 <= k < i ==> flushed(
                        old(self).entries@[k].engine@,
                        self.entries@[k].engine@,
                        effect_views((#[trigger] done@[k])@),
                    ),
                forall|k: int|
                    i <= k < n ==> (#[trigger] self.entries@[k]).engine@ == old(self).entries@[k].engine@,
            decreases n - i,
        {
            let ghost before = self.entries@;
            let result = self.entries[i].engine.flush();
            proof {
                let now = self.entries@;
                assert forall|k: int| 0 <= k < n && k != i implies #[trigger] now[k] == before[k] by {}
                assert forall|a: int, b: int| 0 <= a < b < n implies (#[trigger] now[a]).name@ != (
                #[trigger] now[b]).name@ by {
                    assert(before[a].name@ != before[b].name@);
                }
                assert forall|k: int| 0 <= k < n implies (#[trigger] now[k]).engine.wf() by {
                    if k != i {
                        assert(before[k].engine.wf());
                    }
                }
            }
            match result {
                Ok(effects) => {
                    done.push(effects);
                },
                Err(e) => {
                    proof {
                        assert(self@.names =~= old(self)@.names);
                        assert(self@.schemas =~= old(self)@.schemas);
                    }
                    return (done, Some(e));
                },
            }
            i += 1;
        }
        proof {
            assert(self@.names =~= old(self)@.names);
            assert(self@.schemas =~= old(self)@.schemas);
        }
        (done, None)
    }

    /// Adds a table, with a new engine whose directory is empty. A name that
    /// is taken is refused, and the catalog stays as it is.
    pub fn create_table(&mut self, name: &str, table: Table) -> (r: Result<
        Vec<CatalogEffect>,
        QueryError,
    >)
        requires
            old(self).wf(),
        ensures
            final(self).wf(),
            final(self)@.dir == old(self)@.dir,
            match r {
                Ok(effects) => {
                    &&& !has_table(old(self)@.names, name@)
                    &&& final(self)@.names == old(self)@.names.push(name@)
                    &&& final(self)@.schemas == old(self)@.schemas.push(table)
                    &&& final(self)@.engines == old(self)@.engines.push(
                        EngineView {
                            memtable: Seq::empty(),
                            limit: MEMTABLE_SIZE,
                            tables: Seq::empty(),
                            dir: file_path(old(self)@.dir, name@),
                            next_id: 1,
                        },
                    )
                    &&& effects@.map_values(|e: CatalogEffect| e@) == seq![
                        CatalogEffectView::CreateTableDir { path: file_path(old(self)@.dir, name@) },
                        CatalogEffectView::SaveManifest,
                    ]
                },
                Err(e) => has_table(old(self)@.names, name@) && final(self)@ == old(self)@ && e@
                    == QueryErrorView::DuplicateKey(exists_message(name@)),
            },
    {
        if self.find(name).is_some() {
            let message = String::from_str("Table ").concat(name).concat(" already exists");
            return Err(QueryError::DuplicateKey(message));
        }
        let dir = self.table_dir(name);
        let engine = LSMEngine::empty(dir.as_str(), MEMTABLE_SIZE);
        let ghost before = self.entries@;
        self.entries.push(Entry { name: name.to_owned(), table, engine });
        let mut effects: Vec<CatalogEffect> = Vec::new();
        effects.push(CatalogEffect::CreateTableDir { path: dir });
        effects.push(CatalogEffect::SaveManifest);
        proof {
            assert forall|i: int, j: int| 0 <= i < j < self.entries@.len() implies (
            #[trigger] self.entries@[i]).name@ != (#[trigger] self.entries@[j]).name@ by {
                if j == before.len() {
                    assert(old(self)@.names[i] == before[i].name@);
                } else {
                    assert(before[i].name@ != before[j].name@);
                }
            }
            assert forall|i: int| 0 <= i < self.entries@.len() implies (
            #[trigger] self.entries@[i]).engine.wf() by {
                if i < before.len() {
                    assert(before[i].engine.wf());
                }
            }
            assert(self@.names =~= old(self)@.names.push(name@));
            assert(self@.schemas =~= old(self)@.schemas.push(table));
            assert(self@.engines =~= old(self)@.engines.push(engine@));
            assert(effects@.map_values(|e: CatalogEffect| e@) =~= seq![
                CatalogEffectView::CreateTableDir { path: file_path(old(self)@.dir, name@) },
                CatalogEffectView::SaveManifest,
            ]);
        }
        Ok(effects)
    }

    /// Adds a table that was found in the manifest after a restart, with an
    /// engine for the table files that the listing of its directory names.
    /// The journal of the table is then replayed into the engine. A name
    /// that is taken is passed over; the result says whether the table went
    /// in.
    pub fn restore_table(&mut self, name: &str, table: Table, files: &Vec<TableFile>) -> (added: bool)
        requires
            old(self).wf(),
        ensures
            final(self).wf(),
            final(self)@.dir == old(self)@.dir,
            added == !has_table(old(self)@.names, name@),
            !added ==> final(self)@ == old(self)@,
            added ==> {
                &&& final(self)@.names == old(self)@.names.push(name@)
                &&& final(self)@.schemas == old(self)@.schemas.push(table)
                &&& final(self)@.engines == old(self)@.engines.push(
                    EngineView {
                        memtable: Seq::empty(),
                        limit: MEMTABLE_SIZE,
                        tables: lazy_tables(
                            file_path(old(self)@.dir, name@),
                            newest_first(file_views(files@)),
                        ),
                        dir: file_path(old(self)@.dir, name@),
                        next_id: next_table_id(file_views(files@)),
                    },
                )
            },
    {
        if self.find(name).is_some() {
            return false;
        }
        let dir = self.table_dir(name);
        let engine = LSMEngine::open(dir.as_str(), MEMTABLE_SIZE, files);
        let ghost before = self.entries@;
        self.entries.push(Entry { name: name.to_owned(), table, engine });
        proof {
            assert forall|i: int, j: int| 0 <= i < j < self.entries@.len() implies (
            #[trigger] self.entries@[i]).name@ != (#[trigger] self.entries@[j]).name@ by {
                if j == before.len() {
                    assert(old(self)@.names[i] == before[i].name@);
                } else {
                    assert(before[i].name@ != before[j].name@);
                }
            }
            assert forall|i: int| 0 <= i < self.entries@.len() implies (
            #[trigger] self.entries@[i]).engine.wf() by {
                if i < before.len() {
                    assert(before[i].engine.wf());
                }
            }
            assert(self@.names =~= old(self)@.names.push(name@));
            assert(self@.schemas =~= old(self)@.schemas.push(table));
            assert(self@.engines =~= old(self)@.engines.push(engine@));
        }
        true
    }

    /// Takes a table out, with its schema and its engine. A name that is
    /// not there is refused, and the catalog stays as it is.
    pub fn drop_table(&mut self, name: &str) -> (r: Result<Vec<CatalogEffect>, QueryError>)
        requires
            old(self).wf(),
        ensures
            final(self).wf(),
            final(self)@.dir == old(self)@.dir,
            match r {
                Ok(effects) => {
                    &&& has_table(old(self)@.names, name@)
                    &&& !has_table(final(self)@.names, name@)
                    &&& exists|i: int| #[trigger] taken_out(old(self)@, final(self)@, name@, i)
                    &&& effects@.map_values(|e: CatalogEffect| e@) == seq![
                        CatalogEffectView::RemoveTableDir { path: file_path(old(self)@.dir, name@) },
                        CatalogEffectView::SaveManifest,
                    ]
                },
                Err(e) => !has_table(old(self)@.names, name@) && final(self)@ == old(self)@ && e@
                    == QueryErrorView::TableNotFound(name@),
            },
    {
        let index = match self.find(name) {
            Some(i) => i,
            None => {
                return Err(QueryError::TableNotFound(name.to_owned()));
            },
        };
        let dir = self.table_dir(name);
        let ghost before = self.entries@;
        self.entries.remove(index);
        let mut effects: Vec<CatalogEffect> = Vec::new();
        effects.push(CatalogEffect::RemoveTableDir { path: dir });
        effects.push(CatalogEffect::SaveManifest);
        proof {
            let now = self.entries@;
            assert forall|i: int, j: int| 0 <= i < j < now.len() implies (#[trigger] now[i]).name@ != (
            #[trigger] now[j]).name@ by {
                let a = if i < index { i } else { i + 1 };
                let b = if j < index { j } else { j + 1 };
                assert(before[a].name@ != before[b].name@);
            }
            assert forall|i: int| 0 <= i < now.len() implies (#[trigger] now[i]).engine.wf() by {
                let a = if i < index { i } else { i + 1 };
                assert(before[a].engine.wf());
            }
            assert(self@.names =~= old(self)@.names.remove(index as int));
            assert(self@.schemas =~= old(self)@.schemas.remove(index as int));
            assert(self@.engines =~= old(self)@.engines.remove(index as int));
            assert forall|k: int| 0 <= k < self@.names.len() implies #[trigger] self@.names[k]
                != name@ by {
                let a = if k < index { k } else { k + 1 };
                assert(now[k] == before[a]);
                if a < index {
                    assert(before[a].name@ != before[index as int].name@);
                } else {
                    assert(before[index as int].name@ != before[a].name@);
                }
            }
            assert(old(self)@.names[index as int] == name@);
            assert(taken_out(old(self)@, self@, name@, index as int));
            assert(effects@.map_values(|e: CatalogEffect| e@) =~= seq![
                CatalogEffectView::RemoveTableDir { path: file_path(old(self)@.dir, name@) },
                CatalogEffectView::SaveManifest,
            ]);
        }
        Ok(effects)
    }
}

} // verus!
