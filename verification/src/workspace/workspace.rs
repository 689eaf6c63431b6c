//! The files of a workspace, read and kept up to date.
//!
//! A workspace holds the text of each source file, the entity declarations of
//! the files that could be read, each tagged with its file, and for each file
//! what reading it gave: its syntax or the error. Reading and writing files
//! is left to the caller, who hands in texts and takes generated texts out.

use vstd::prelude::*;
use vstd::string::StringSliceAdditionalSpecFns;
use vstd::utf8::encode_utf8;
use crate::codegen::codegen::{
    find_representative, generated, representative, serialize_schema_and_file, Codegen,
};
use crate::codegen::python::{python_ready, PythonCodegen};
use crate::config::config::RuuLangConfig;
use crate::parser::assembler::{assembled_file, entities_of, ParserAssemble};
use crate::parser::parse_location::{Parsed, ParsedModel};
use crate::parser::parser_constructs::{parsed, ParserStatement};
use crate::parser::ruulang_ast::{Fragment, FragmentModel, RuuLangFile, RuuLangFileModel};
use crate::parser::schema_ast::{Entity, EntityModel, RuuLangSchema};
use crate::typechecker::typechecker::{file_diagnostics, index_of, Typechecker};
use crate::utils::error::{error_of_parse, Result, RuuLangError, RuuLangErrorModel};
use crate::utils::order::{text_le, text_le_exec};
use crate::utils::paths::{
    extension, no_separator, path_extension, path_starts_with, path_with_extension, starts_with,
    with_extension,
};
use crate::utils::text::{texts, views};
use crate::utils::with_origin::WithOrigin;

verus! {

/// An entity declaration with the path of its file.
pub type TaggedEntity = (Seq<char>, ParsedModel<EntityModel>);

/// What reading a file gave, with the path of the file.
pub type TaggedFile = (Seq<char>, core::result::Result<RuuLangFileModel, RuuLangErrorModel>);

/// The mathematical value of what a [`Workspace`] holds of its files. The
/// configuration and the working directory are plain values, which the
/// contracts name by themselves.
pub struct WorkspaceModel {
    /// The source texts with their paths; no path stands twice.
    pub sources: Seq<(Seq<char>, Seq<char>)>,
    pub entities: Seq<TaggedEntity>,
    pub files: Seq<TaggedFile>,
}

pub open spec fn source_models(sources: Seq<(String, String)>) -> Seq<(Seq<char>, Seq<char>)> {
    Seq::new(sources.len(), |i: int| (sources[i].0@, sources[i].1@))
}

pub open spec fn entity_models(entities: Seq<WithOrigin<Parsed<Entity>>>) -> Seq<TaggedEntity> {
    Seq::new(entities.len(), |i: int| (entities[i].origin@, entities[i].data@))
}

pub open spec fn result_model(result: Result<RuuLangFile>) -> core::result::Result<
    RuuLangFileModel,
    RuuLangErrorModel,
> {
    match result {
        Ok(file) => Ok(file@),
        Err(e) => Err(e@),
    }
}

pub open spec fn file_models(files: Seq<WithOrigin<Result<RuuLangFile>>>) -> Seq<TaggedFile> {
    Seq::new(files.len(), |i: int| (files[i].origin@, result_model(files[i].data)))
}

/// Whether a text is short enough to be read: positions behind its end can
/// be counted.
pub open spec fn readable(contents: Seq<char>) -> bool {
    encode_utf8(contents).len() + 8 <= usize::MAX
}

/// What reading a text gives: its entity declarations, and its syntax or the
/// error.
pub open spec fn outcome(contents: Seq<char>) -> (
    Seq<ParsedModel<EntityModel>>,
    core::result::Result<RuuLangFileModel, RuuLangErrorModel>,
) {
    match parsed(encode_utf8(contents)) {
        Ok(statements) => (
            entities_of(statements, statements.len()),
            Ok(assembled_file(statements)),
        ),
        Err(e) => (Seq::empty(), Err(error_of_parse(e)@)),
    }
}

/// Entity declarations tagged with a path.
pub open spec fn tagged(path: Seq<char>, entities: Seq<ParsedModel<EntityModel>>) -> Seq<
    TaggedEntity,
> {
    Seq::new(entities.len(), |i: int| (path, entities[i]))
}

/// The entity declarations of the first `n` sources, file by file.
pub open spec fn loaded_entities(sources: Seq<(Seq<char>, Seq<char>)>, n: nat) -> Seq<TaggedEntity>
    decreases n,
{
    if n == 0 || n > sources.len() {
        Seq::empty()
    } else {
        loaded_entities(sources, (n - 1) as nat) + tagged(
            sources[n - 1].0,
            outcome(sources[n - 1].1).0,
        )
    }
}

/// What reading each of the first `n` sources gave.
pub open spec fn loaded_files(sources: Seq<(Seq<char>, Seq<char>)>, n: nat) -> Seq<TaggedFile>
    decreases n,
{
    if n == 0 || n > sources.len() {
        Seq::empty()
    } else {
        loaded_files(sources, (n - 1) as nat).push((sources[n - 1].0, outcome(sources[n - 1].1).1))
    }
}

/// The position of `path` among the first parts of `pairs` from `from` on,
/// or the length of `pairs`.
pub open spec fn position_of<A>(pairs: Seq<(Seq<char>, A)>, path: Seq<char>, from: nat) -> nat
    decreases pairs.len() - from,
{
    if from >= pairs.len() {
        pairs.len()
    } else if pairs[from as int].0 == path {
        from
    } else {
        position_of(pairs, path, from + 1)
    }
}

/// `pairs` with `value` under `path`: in place of the first entry for `path`,
/// or at the end where there is none.
pub open spec fn replaced<A>(pairs: Seq<(Seq<char>, A)>, path: Seq<char>, value: A) -> Seq<
    (Seq<char>, A),
> {
    let at = position_of(pairs, path, 0);
    if at < pairs.len() {
        pairs.update(at as int, (path, value))
    } else {
        pairs.push((path, value))
    }
}

/// The first `n` sources as a table: each path once, with the text that was
/// given last for it.
pub open spec fn keyed(pairs: Seq<(Seq<char>, Seq<char>)>, n: nat) -> Seq<(Seq<char>, Seq<char>)>
    decreases n,
{
    if n == 0 || n > pairs.len() {
        Seq::empty()
    } else {
        replaced(keyed(pairs, (n - 1) as nat), pairs[n - 1].0, pairs[n - 1].1)
    }
}

/// The first `n` entity declarations without those of the file `path`.
pub open spec fn without_origin(entities: Seq<TaggedEntity>, path: Seq<char>, n: nat) -> Seq<
    TaggedEntity,
>
    decreases n,
{
    if n == 0 || n > entities.len() {
        Seq::empty()
    } else if entities[n - 1].0 == path {
        without_origin(entities, path, (n - 1) as nat)
    } else {
        without_origin(entities, path, (n - 1) as nat).push(entities[n - 1])
    }
}

/// The workspace that holds the files of a table of sources, each read.
pub open spec fn loaded(table: Seq<(Seq<char>, Seq<char>)>) -> WorkspaceModel {
    WorkspaceModel {
        sources: table,
        entities: loaded_entities(table, table.len()),
        files: loaded_files(table, table.len()),
    }
}

/// The workspace after all of `sources` were read anew.
pub open spec fn reloaded(sources: Seq<(Seq<char>, Seq<char>)>) -> WorkspaceModel {
    loaded(keyed(sources, sources.len()))
}

/// The workspace after the file `path` was given the text `contents` and
/// read anew: its text is filed, its former entity declarations are dropped
/// and its new ones added at the end, and what reading it gave stands in
/// place of what was there for it, or at the end. Nothing else changes.
pub open spec fn patched(before: WorkspaceModel, path: Seq<char>, contents: Seq<char>) -> WorkspaceModel {
    WorkspaceModel {
        sources: replaced(before.sources, path, contents),
        entities: without_origin(before.entities, path, before.entities.len()) + tagged(
            path,
            outcome(contents).0,
        ),
        files: replaced(before.files, path, outcome(contents).1),
    }
}

/// The message for a path that the workspace holds no file for.
pub open spec fn not_found_message(path: Seq<char>) -> Seq<char> {
    "File not found: "@ + path
}

/// The files of a workspace.
pub struct Workspace {
    pub config: RuuLangConfig,
    pub working_dir: String,
    pub source_files: Vec<(String, String)>,
    pub entities: Vec<WithOrigin<Parsed<Entity>>>,
    pub files: Vec<WithOrigin<Result<RuuLangFile>>>,
}

impl View for Workspace {
    type V = WorkspaceModel;

    open spec fn view(&self) -> WorkspaceModel {
        WorkspaceModel {
            sources: source_models(self.source_files@),
            entities: entity_models(self.entities@),
            files: file_models(self.files@),
        }
    }
}

fn find_pair(pairs: &Vec<(String, String)>, path: &String) -> (r: Option<usize>)
    ensures
        match r {
            Some(i) => i < pairs@.len() && position_of(source_models(pairs@), path@, 0) == i,
            None => position_of(source_models(pairs@), path@, 0) == pairs@.len(),
        },
{
    let mut i: usize = 0;
    while i < pairs.len()
        invariant
            i <= pairs@.len(),
            position_of(source_models(pairs@), path@, 0) == position_of(
                source_models(pairs@),
                path@,
                i as nat,
            ),
        decreases pairs@.len() - i,
    {
        if pairs[i].0 == *path {
            return Some(i);
        }
        i += 1;
    }
    None
}

fn find_file(files: &Vec<WithOrigin<Result<RuuLangFile>>>, path: &String) -> (r: Option<usize>)
    ensures
        match r {
            Some(i) => i < files@.len() && position_of(file_models(files@), path@, 0) == i
                && files@[i as int].origin@ == path@,
            None => position_of(file_models(files@), path@, 0) == files@.len(),
        },
{
    let mut i: usize = 0;
    while i < files.len()
        invariant
            i <= files@.len(),
            position_of(file_models(files@), path@, 0) == position_of(
                file_models(files@),
                path@,
                i as nat,
            ),
        decreases files@.len() - i,
    {
        if files[i].origin == *path {
            return Some(i);
        }
        i += 1;
    }
    None
}

/// Files `contents` under `path`, in place of what was there.
fn put_source(sources: &mut Vec<(String, String)>, path: String, contents: String)
    ensures
        source_models(final(sources)@) == replaced(source_models(old(sources)@), path@, contents@),
{
    match find_pair(sources, &path) {
        Some(i) => {
            sources.remove(i);
            sources.insert(i, (path, contents));
            assert(source_models(sources@) =~= replaced(
                source_models(old(sources)@),
                path@,
                contents@,
            ));
        },
        None => {
            sources.push((path, contents));
            assert(source_models(sources@) =~= replaced(
                source_models(old(sources)@),
                path@,
                contents@,
            ));
        },
    }
}

impl Workspace {
    /// The workspace root that the configuration names.
    pub open spec fn root(&self) -> Option<String> {
        self.config.workspace.root
    }

    /// The entity declarations of the workspace, as they are kept.
    pub open spec fn kept_entities(&self) -> Seq<WithOrigin<Parsed<Entity>>> {
        self.entities@
    }

    /// The files of the workspace, as they are kept.
    pub open spec fn kept_files(&self) -> Seq<WithOrigin<Result<RuuLangFile>>> {
        self.files@
    }

    /// A workspace without files.
    pub fn new(config: RuuLangConfig, working_dir: String) -> (r: Self)
        ensures
            r@ == (WorkspaceModel {
                sources: Seq::empty(),
                entities: Seq::empty(),
                files: Seq::empty(),
            }),
            r.config == config,
            r.working_dir == working_dir,
    {
        let r = Workspace {
            config,
            working_dir,
            source_files: Vec::new(),
            entities: Vec::new(),
            files: Vec::new(),
        };
        proof {
            assert(r@.sources =~= Seq::empty());
            assert(r@.entities =~= Seq::empty());
            assert(r@.files =~= Seq::empty());
        }
        r
    }

    /// Reads one text: its schema and its file, or the error.
    fn parse_file(contents: &String) -> (r: Result<(RuuLangSchema, RuuLangFile)>)
        requires
            readable(contents@),
        ensures
            match r {
                Ok((schema, file)) => outcome(contents@) == (
                    schema@,
                    Ok::<RuuLangFileModel, RuuLangErrorModel>(file@),
                ),
                Err(e) => outcome(contents@) == (
                    Seq::<ParsedModel<EntityModel>>::empty(),
                    Err::<RuuLangFileModel, RuuLangErrorModel>(e@),
                ),
            },
    {
        match ParserStatement::parse(contents.as_str()) {
            Ok(statements) => Ok(statements.assemble()),
            Err(e) => Err(RuuLangError::from(e)),
        }
    }

    /// Reads every text of a table of sources.
    fn parse_all(file_data: &Vec<(String, String)>) -> (r: (
        Vec<WithOrigin<Parsed<Entity>>>,
        Vec<WithOrigin<Result<RuuLangFile>>>,
    ))
        requires
            forall|i: int| 0 <= i < file_data@.len() ==> readable((#[trigger] file_data@[i]).1@),
        ensures
            entity_models(r.0@) == loaded_entities(source_models(file_data@), file_data@.len()),
            file_models(r.1@) == loaded_files(source_models(file_data@), file_data@.len()),
    {
        let mut entities: Vec<WithOrigin<Parsed<Entity>>> = Vec::new();
        let mut files: Vec<WithOrigin<Result<RuuLangFile>>> = Vec::new();
        let ghost sources = source_models(file_data@);
        assert(entity_models(entities@) =~= Seq::empty());
        assert(file_models(files@) =~= Seq::empty());
        let mut i: usize = 0;
        while i < file_data.len()
            invariant
                i <= file_data@.len(),
                sources == source_models(file_data@),
                forall|k: int|
                    0 <= k < file_data@.len() ==> readable((#[trigger] file_data@[k]).1@),
                entity_models(entities@) == loaded_entities(sources, i as nat),
                file_models(files@) == loaded_files(sources, i as nat),
            decreases file_data@.len() - i,
        {
            let origin = &file_data[i].0;
            let ghost held_files = files@;
            assert(readable(file_data@[i as int].1@));
            match Self::parse_file(&file_data[i].1) {
                Err(e) => {
                    files.push(WithOrigin::new(Err(e), origin.clone()));
                    proof {
                        assert(tagged(origin@, outcome(file_data@[i as int].1@).0)
                            =~= Seq::empty());
                        assert(entity_models(entities@) =~= loaded_entities(
                            sources,
                            (i + 1) as nat,
                        ));
                    }
                },
                Ok((schema, file)) => {
                    Self::add_entities(&mut entities, schema, origin);
                    files.push(WithOrigin::new(Ok(file), origin.clone()));
                },
            }
            assert(file_models(files@) =~= loaded_files(sources, (i + 1) as nat));
            i += 1;
        }
        (entities, files)
    }

    /// Adds the entity declarations of a schema, tagged with their file.
    fn add_entities(
        entities: &mut Vec<WithOrigin<Parsed<Entity>>>,
        schema: RuuLangSchema,
        origin: &String,
    )
        ensures
            entity_models(final(entities)@) == entity_models(old(entities)@) + tagged(
                origin@,
                schema@,
            ),
    {
        let ghost before = entity_models(entities@);
        let ghost all = schema@;
        let RuuLangSchema { entities: declared } = schema;
        let mut rest = declared;
        let ghost mut k: int = 0;
        assert(entity_models(entities@) =~= before + tagged(origin@, all).take(0));
        while rest.len() > 0
            invariant
                0 <= k,
                k + rest@.len() == all.len(),
                forall|j: int| 0 <= j < rest@.len() ==> rest@[j]@ == all[k + j],
                entity_models(entities@) == before + tagged(origin@, all).take(k),
            decreases rest@.len(),
        {
            let ghost held = rest@;
            let ghost held_entities = entity_models(entities@);
            let entity = rest.remove(0);
            assert(entity@ == all[k]);
            assert forall|j: int| 0 <= j < rest@.len() implies rest@[j]@ == all[k + 1 + j] by {
                assert(rest@[j] == held[j + 1]);
            }
            entities.push(WithOrigin::new(entity, origin.clone()));
            proof {
                assert(entity_models(entities@) =~= held_entities.push((origin@, entity@)));
                assert(tagged(origin@, all).take(k + 1) =~= tagged(origin@, all).take(k).push(
                    (origin@, all[k]),
                ));
                assert(entity_models(entities@) =~= before + tagged(origin@, all).take(k + 1));
                k = k + 1;
            }
        }
        assert(tagged(origin@, all).take(all.len() as int) =~= tagged(origin@, all));
    }

    /// Reads all of the given sources anew, in place of what the workspace
    /// held. Each source is a path and the text of the file there; where a
    /// path is given twice, its last text counts.
    pub fn reload(&mut self, file_data: Vec<(String, String)>)
        requires
            forall|i: int| 0 <= i < file_data@.len() ==> readable((#[trigger] file_data@[i]).1@),
        ensures
            final(self)@ == reloaded(source_models(file_data@)),
            final(self).config == old(self).config,
            final(self).working_dir == old(self).working_dir,
    {
        let ghost given = source_models(file_data@);
        let mut table: Vec<(String, String)> = Vec::new();
        let mut rest = file_data;
        let ghost mut k: int = 0;
        assert(source_models(table@) =~= keyed(given, 0));
        while rest.len() > 0
            invariant
                0 <= k,
                k + rest@.len() == given.len(),
                forall|j: int|
                    0 <= j < rest@.len() ==> (rest@[j].0@, rest@[j].1@) == given[k + j] && readable(
                        (#[trigger] rest@[j]).1@,
                    ),
                source_models(table@) == keyed(given, k as nat),
                forall|j: int| 0 <= j < table@.len() ==> readable((#[trigger] table@[j]).1@),
            decreases rest@.len(),
        {
            let ghost held = rest@;
            let ghost held_table = table@;
            let (path, contents) = rest.remove(0);
            assert((path@, contents@) == given[k]) by {
                assert((held[0].0@, held[0].1@) == given[k + 0]);
            }
            assert(readable(contents@)) by {
                assert(readable(held[0].1@));
            }
            assert forall|j: int| 0 <= j < rest@.len() implies (rest@[j].0@, rest@[j].1@) == given[k
                + 1 + j] && readable((#[trigger] rest@[j]).1@) by {
                assert(rest@[j] == held[j + 1]);
                assert((held[j + 1].0@, held[j + 1].1@) == given[k + (j + 1)]);
                assert(readable(held[j + 1].1@));
            }
            match find_pair(&table, &path) {
                Some(i) => {
                    table.remove(i);
                    table.insert(i, (path, contents));
                    assert(table@ =~= held_table.update(i as int, (path, contents)));
                    assert forall|j: int| 0 <= j < table@.len() implies readable(
                        (#[trigger] table@[j]).1@,
                    ) by {
                        if j != i {
                            assert(table@[j] == held_table[j]);
                        }
                    }
                },
                None => {
                    table.push((path, contents));
                    assert forall|j: int| 0 <= j < table@.len() implies readable(
                        (#[trigger] table@[j]).1@,
                    ) by {
                        if j < held_table.len() {
                            assert(table@[j] == held_table[j]);
                        }
                    }
                },
            }
            proof {
                assert(source_models(table@) =~= replaced(
                    source_models(held_table),
                    path@,
                    contents@,
                ));
                k = k + 1;
            }
        }
        let (entities, files) = Self::parse_all(&table);
        self.entities = entities;
        self.files = files;
        self.source_files = table;
    }

    /// Gives the file `path` the text `contents` and reads it anew. The other
    /// files stay as they are.
    pub fn patch_file(&mut self, path: &String, contents: &String) -> (r: Result<()>)
        requires
            readable(contents@),
        ensures
            r.is_ok(),
            final(self)@ == patched(old(self)@, path@, contents@),
            final(self).config == old(self).config,
            final(self).working_dir == old(self).working_dir,
    {
        let ghost before = self@;
        put_source(&mut self.source_files, path.clone(), contents.clone());
        let result = Self::parse_file(contents);
        let mut kept: Vec<WithOrigin<Parsed<Entity>>> = Vec::new();
        let mut rest: Vec<WithOrigin<Parsed<Entity>>> = Vec::new();
        core::mem::swap(&mut rest, &mut self.entities);
        let ghost all = entity_models(rest@);
        let ghost mut k: int = 0;
        assert(entity_models(kept@) =~= without_origin(all, path@, 0));
        while rest.len() > 0
            invariant
                0 <= k,
                k + rest@.len() == all.len(),
                forall|j: int|
                    0 <= j < rest@.len() ==> (rest@[j].origin@, rest@[j].data@) == all[k + j],
                entity_models(kept@) == without_origin(all, path@, k as nat),
            decreases rest@.len(),
        {
            let ghost held = rest@;
            let ghost held_kept = entity_models(kept@);
            let entity = rest.remove(0);
            assert((entity.origin@, entity.data@) == all[k]) by {
                assert((held[0].origin@, held[0].data@) == all[k + 0]);
            }
            assert forall|j: int| 0 <= j < rest@.len() implies (rest@[j].origin@, rest@[j].data@)
                == all[k + 1 + j] by {
                assert(rest@[j] == held[j + 1]);
                assert((held[j + 1].origin@, held[j + 1].data@) == all[k + (j + 1)]);
            }
            if !(entity.origin == *path) {
                kept.push(entity);
                assert(entity_models(kept@) =~= held_kept.push((entity.origin@, entity.data@)));
            }
            proof {
                k = k + 1;
            }
        }
        let file_result = match result {
            Ok((schema, file)) => {
                Self::add_entities(&mut kept, schema, path);
                Ok(file)
            },
            Err(e) => {
                assert(entity_models(kept@) + tagged(path@, outcome(contents@).0)
                    =~= entity_models(kept@));
                Err(e)
            },
        };
        self.entities = kept;
        let ghost held_files = self.files@;
        match find_file(&self.files, path) {
            Some(idx) => {
                self.files.remove(idx);
                self.files.insert(idx, WithOrigin::new(file_result, path.clone()));
                assert(file_models(self.files@) =~= replaced(
                    file_models(held_files),
                    path@,
                    outcome(contents@).1,
                ));
            },
            None => {
                self.files.push(WithOrigin::new(file_result, path.clone()));
                assert(file_models(self.files@) =~= replaced(
                    file_models(held_files),
                    path@,
                    outcome(contents@).1,
                ));
            },
        }
        Ok(())
    }

    /// The diagnostics of the file `path`, checked against everything the
    /// workspace holds: those of validation for a file that could be read,
    /// the error of reading for one that could not, and a failure to find
    /// the file for a path that the workspace holds no file for.
    pub fn typecheck_file(&self, path: &String) -> (r: Vec<RuuLangError>)
        ensures
            views(r@) == (if position_of(self@.files, path@, 0) < self@.files.len() {
                match self.kept_files()[position_of(self@.files, path@, 0) as int].data {
                    Ok(file) => file_diagnostics(
                        index_of(self.kept_entities(), self.kept_files()),
                        file@,
                    ),
                    Err(e) => seq![e@],
                }
            } else {
                seq![RuuLangErrorModel::FileNotFound(not_found_message(path@))]
            }),
    {
        match find_file(&self.files, path) {
            Some(i) => {
                match &self.files[i].data {
                    Ok(data) => {
                        let typechecker = Typechecker::new(&self.entities, &self.files);
                        typechecker.validate_file(data)
                    },
                    Err(e) => {
                        let mut out: Vec<RuuLangError> = Vec::new();
                        let copy = e.clone();
                        out.push(copy);
                        assert(views(out@) =~= seq![e@]);
                        out
                    },
                }
            },
            None => {
                let mut message = "File not found: ".to_owned();
                message.append(path.as_str());
                let mut out: Vec<RuuLangError> = Vec::new();
                let e = RuuLangError::FileNotFound(message);
                out.push(e);
                assert(views(out@) =~= seq![e@]);
                out
            },
        }
    }

    /// The texts of the source files, by path.
    pub fn resolve_file(&self, path: &String) -> (r: Option<&String>)
        ensures
            match r {
                Some(text) => position_of(self@.sources, path@, 0) < self@.sources.len()
                    && text@ == self@.sources[position_of(self@.sources, path@, 0) as int].1,
                None => position_of(self@.sources, path@, 0) == self@.sources.len(),
            },
    {
        match find_pair(&self.source_files, path) {
            Some(i) => Some(&self.source_files[i].1),
            None => None,
        }
    }

    /// What reading the file `path` gave.
    pub fn resolve_schema(&self, path: &String) -> (r: Option<&WithOrigin<Result<RuuLangFile>>>)
        ensures
            match r {
                Some(found) => position_of(self@.files, path@, 0) < self@.files.len() && *found
                    == self.kept_files()[position_of(self@.files, path@, 0) as int],
                None => position_of(self@.files, path@, 0) == self@.files.len(),
            },
    {
        match find_file(&self.files, path) {
            Some(i) => Some(&self.files[i]),
            None => None,
        }
    }

    /// The paths of the source files.
    pub fn file_name_iter(&self) -> (r: Vec<&String>)
        ensures
            r@.len() == self@.sources.len(),
            forall|i: int| 0 <= i < r@.len() ==> (#[trigger] r@[i])@ == self@.sources[i].0,
    {
        let mut out: Vec<&String> = Vec::new();
        let mut i: usize = 0;
        while i < self.source_files.len()
            invariant
                i <= self.source_files@.len(),
                out@.len() == i,
                forall|k: int| 0 <= k < i ==> (#[trigger] out@[k])@ == self.source_files@[k].0@,
            decreases self.source_files@.len() - i,
        {
            out.push(&self.source_files[i].0);
            i += 1;
        }
        out
    }

    /// The entity declarations of the workspace, each with its file.
    pub fn entities(&self) -> (r: &Vec<WithOrigin<Parsed<Entity>>>)
        ensures
            r@ == self.kept_entities(),
    {
        &self.entities
    }

    /// What reading each file of the workspace gave.
    pub fn files(&self) -> (r: &Vec<WithOrigin<Result<RuuLangFile>>>)
        ensures
            r@ == self.kept_files(),
    {
        &self.files
    }

    /// Whether `path` lies below the workspace root.
    pub fn contains_file(&self, path: &String) -> (r: bool)
        requires
            self.root().is_some(),
        ensures
            r == path_starts_with(path@, self.root().unwrap()@),
    {
        match &self.config.workspace.root {
            Some(root) => starts_with(path.as_str(), root.as_str()),
            None => false,
        }
    }

    /// Whether `path` names a source file: a file with the extension
    /// `ruulang`.
    pub fn file_is_ruulang_source(&self, path: &String) -> (r: bool)
        ensures
            r == (path_extension(path@) == Some("ruulang"@)),
    {
        match extension(path.as_str()) {
            Some(e) => crate::utils::text::same_text(e.as_str(), "ruulang"),
            None => false,
        }
    }
    /// The diagnostics of every file of the workspace, file by file, each
    /// list under the path of its file.
    pub fn typecheck(&self) -> (r: Vec<WithOrigin<Vec<RuuLangError>>>)
        ensures
            r@.len() == self.files@.len(),
            forall|i: int|
                0 <= i < r@.len() ==> (#[trigger] r@[i]).origin@ == self.files@[i].origin@
                    && views(r@[i].data@) == (match self.files@[i].data {
                    Ok(file) => file_diagnostics(index_of(self.entities@, self.files@), file@),
                    Err(e) => seq![e@],
                }),
    {
        let typechecker = Typechecker::new(&self.entities, &self.files);
        let mut report: Vec<WithOrigin<Vec<RuuLangError>>> = Vec::new();
        let mut i: usize = 0;
        while i < self.files.len()
            invariant
                i <= self.files@.len(),
                typechecker.wf(),
                typechecker@ == index_of(self.entities@, self.files@),
                report@.len() == i,
                forall|k: int|
                    0 <= k < i ==> (#[trigger] report@[k]).origin@ == self.files@[k].origin@
                        && views(report@[k].data@) == (match self.files@[k].data {
                        Ok(file) => file_diagnostics(
                            index_of(self.entities@, self.files@),
                            file@,
                        ),
                        Err(e) => seq![e@],
                    }),
            decreases self.files@.len() - i,
        {
            let schema = &self.files[i];
            let errors = match &schema.data {
                Ok(data) => typechecker.validate_file(data),
                Err(e) => {
                    let mut out: Vec<RuuLangError> = Vec::new();
                    out.push(e.clone());
                    assert(views(out@) =~= seq![e@]);
                    out
                },
            };
            report.push(schema.as_with_data(errors));
            i += 1;
        }
        report
    }

    /// The declaration that stands for the entity `name`, with its file: the
    /// first declaration of the entity in the file whose path comes first in
    /// dictionary order among the files that declare it.
    pub fn entity_by_name(&self, name: &String) -> (r: Option<&WithOrigin<Parsed<Entity>>>)
        ensures
            match r {
                Some(found) => representative(self.entities@, name@, self.entities@.len()).is_some()
                    && *found == self.entities@[representative(
                    self.entities@,
                    name@,
                    self.entities@.len(),
                ).unwrap()],
                None => representative(self.entities@, name@, self.entities@.len()).is_none(),
            },
    {
        match find_representative(&self.entities, name) {
            Some(i) => Some(&self.entities[i]),
            None => None,
        }
    }

    /// The fragment `name` for the entity `entity`: the first such fragment
    /// in the file whose path comes first in the order of a dictionary, among
    /// the files that hold one.
    pub fn fragment_by_name_and_entity<'a>(&'a self, name: &String, entity: &String) -> (r: Option<
        &'a Parsed<Fragment>,
    >)
        ensures
            match r {
                Some(found) => fragment_named(self@.files, name@, entity@) == Some(found@),
                None => fragment_named(self@.files, name@, entity@).is_none(),
            },
    {
        let ghost files = self@.files;
        let mut best: Option<usize> = None;
        let mut found: Option<&'a Parsed<Fragment>> = None;
        let mut i: usize = 0;
        while i < self.files.len()
            invariant
                i <= self.files@.len(),
                files == self@.files,
                files.len() == self.files@.len(),
                match best {
                    Some(k) => k < i && fragment_file(files, name@, entity@, i as nat) == Some(
                        k as int,
                    ) && found.is_some() && (files[k as int].1 matches Ok(read) && fragment_among(
                        read.fragments,
                        name@,
                        entity@,
                        0,
                    ) == Some(found.unwrap()@)),
                    None => fragment_file(files, name@, entity@, i as nat).is_none()
                        && found.is_none(),
                },
            decreases self.files@.len() - i,
        {
            assert(files[i as int] == (
                self.files@[i as int].origin@,
                result_model(self.files@[i as int].data),
            ));
            if let Ok(file) = &self.files[i].data {
                match find_in_file(file, name, entity) {
                    Some(f) => {
                        let keep = match best {
                            Some(k) => {
                                assert(files[k as int].0 == self.files@[k as int].origin@);
                                text_le_exec(
                                    self.files[k].origin.as_str(),
                                    self.files[i].origin.as_str(),
                                )
                            },
                            None => false,
                        };
                        if !keep {
                            best = Some(i);
                            found = Some(f);
                        }
                    },
                    None => {},
                }
            }
            i += 1;
        }
        found
    }

    /// The path of the file generated for the source file `origin`: the
    /// same path with the extension `extension`.
    pub fn output_path(origin: &String, extension: &str) -> (r: String)
        requires
            no_separator(extension@),
        ensures
            r@ == path_with_extension(origin@, extension@),
    {
        with_extension(origin.as_str(), extension)
    }

    /// The typed binding module for one file of the workspace: its path and
    /// its text. `file_json` is the JSON text of the file's syntax, which the
    /// module embeds. None for a file that could not be read, and where the
    /// generator cannot run on the workspace (see [`python_ready`]).
    pub fn compile_one_python(
        &self,
        schema: &WithOrigin<Result<RuuLangFile>>,
        file_json: &String,
    ) -> (r: Option<(String, String)>)
        ensures
            match r {
                Some((path, text)) => schema.data.is_ok() && path@ == path_with_extension(
                    schema.origin@,
                    "py"@,
                ) && python_ready(path@, self.config.workspace.root, self.entities@) && text@
                    == generated(
                    PythonCodegen {
                        origin: &schema.origin,
                        file_name: &path,
                        entities: &self.entities,
                        config: &self.config,
                        file: &schema.data.unwrap(),
                        file_json,
                    },
                ),
                None => schema.data.is_err() || !python_ready(
                    path_with_extension(schema.origin@, "py"@),
                    self.config.workspace.root,
                    self.entities@,
                ),
            },
    {
        let file = match &schema.data {
            Ok(d) => d,
            Err(_) => {
                return None;
            },
        };
        proof {
            reveal_strlit("py");
            assert(no_separator("py"@));
        }
        let new_file = with_extension(schema.origin.as_str(), "py");
        let text = match PythonCodegen::try_new(
            &schema.origin,
            &new_file,
            &self.config,
            &self.entities,
            file,
            file_json,
        ) {
            Some(python) => serialize_schema_and_file(&python),
            None => {
                return None;
            },
        };
        Some((new_file, text))
    }
}

/// The first fragment `name` for `entity` among `fragments`, from position
/// `from` on.
pub open spec fn fragment_among(
    fragments: Seq<ParsedModel<FragmentModel>>,
    name: Seq<char>,
    entity: Seq<char>,
    from: nat,
) -> Option<ParsedModel<FragmentModel>>
    decreases fragments.len() - from,
{
    if from >= fragments.len() {
        None
    } else if fragments[from as int].data.name.data.value == name
        && fragments[from as int].data.for_entity.data.value == entity {
        Some(fragments[from as int])
    } else {
        fragment_among(fragments, name, entity, from + 1)
    }
}

/// Whether a file could be read and holds a fragment `name` for `entity`.
pub open spec fn holds_fragment(file: TaggedFile, name: Seq<char>, entity: Seq<char>) -> bool {
    match file.1 {
        Ok(read) => fragment_among(read.fragments, name, entity, 0).is_some(),
        Err(_) => false,
    }
}

/// The place of the file, among the first `n`, whose fragment `name` for
/// `entity` counts: the file whose path comes first in the order of a
/// dictionary, among the files that hold such a fragment.
pub open spec fn fragment_file(files: Seq<TaggedFile>, name: Seq<char>, entity: Seq<char>, n: nat) -> Option<
    int,
>
    decreases n,
{
    if n == 0 || n > files.len() {
        None
    } else {
        let before = fragment_file(files, name, entity, (n - 1) as nat);
        if !holds_fragment(files[n - 1], name, entity) {
            before
        } else {
            match before {
                Some(i) if text_le(files[i].0, files[n - 1].0) => before,
                _ => Some(n - 1),
            }
        }
    }
}

/// The fragment `name` for `entity`: the first such fragment in the file
/// whose path comes first among the files that hold one.
pub open spec fn fragment_named(files: Seq<TaggedFile>, name: Seq<char>, entity: Seq<char>) -> Option<
    ParsedModel<FragmentModel>,
> {
    match fragment_file(files, name, entity, files.len()) {
        Some(i) => match files[i].1 {
            Ok(read) => fragment_among(read.fragments, name, entity, 0),
            Err(_) => None,
        },
        None => None,
    }
}

fn find_in_file<'a>(file: &'a RuuLangFile, name: &String, entity: &String) -> (r: Option<
    &'a Parsed<Fragment>,
>)
    ensures
        match r {
            Some(found) => fragment_among(file@.fragments, name@, entity@, 0) == Some(found@),
            None => fragment_among(file@.fragments, name@, entity@, 0).is_none(),
        },
{
    let mut j: usize = 0;
    while j < file.fragments.len()
        invariant
            j <= file.fragments@.len(),
            fragment_among(file@.fragments, name@, entity@, 0) == fragment_among(
                file@.fragments,
                name@,
                entity@,
                j as nat,
            ),
        decreases file.fragments@.len() - j,
    {
        let fragment = &file.fragments[j];
        if fragment.data.name.data.value == *name && fragment.data.for_entity.data.value
            == *entity {
            return Some(fragment);
        }
        j += 1;
    }
    None
}

/// The JSON texts of a file's syntax: laid out for reading, and on one line.
#[derive(Debug)]
pub struct JsonTexts {
    pub pretty: String,
    pub compact: String,
}

/// Whether `out` is the JSON artifact of a file: its path is that of the
/// source file with the extension `json`, and its text is the JSON text
/// laid out for reading.
pub open spec fn is_json_artifact(
    schema: WithOrigin<Result<RuuLangFile>>,
    texts: JsonTexts,
    out: (String, String),
) -> bool {
    out.0@ == path_with_extension(schema.origin@, "json"@) && out.1@ == texts.pretty@
}

/// Whether `out` is the typed binding module of a file: its path is that
/// of the source file with the extension `py`, and its text is what the
/// generator gives for the file, the workspace's entities and the JSON text
/// on one line.
pub open spec fn is_python_artifact(
    ws: Workspace,
    schema: WithOrigin<Result<RuuLangFile>>,
    texts: JsonTexts,
    out: (String, String),
) -> bool {
    out.0@ == path_with_extension(schema.origin@, "py"@) && out.1@ == generated(
        PythonCodegen {
            origin: &schema.origin,
            file_name: &out.0,
            entities: &ws.entities,
            config: &ws.config,
            file: &schema.data.unwrap(),
            file_json: &texts.compact,
        },
    )
}

/// Whether the typed binding module of a file is to be written: the
/// generator is enabled and can run on the workspace.
pub open spec fn python_wanted(ws: Workspace, schema: WithOrigin<Result<RuuLangFile>>) -> bool {
    (ws.config.python matches Some(p) && p.enabled) && python_ready(
        path_with_extension(schema.origin@, "py"@),
        ws.config.workspace.root,
        ws.entities@,
    )
}

/// Whether the JSON file of a file is to be written.
pub open spec fn json_wanted(ws: Workspace) -> bool {
    ws.config.json matches Some(j) && j.enabled
}

/// Whether `out` holds the artifacts of one file: nothing for a file that
/// could not be read or whose JSON texts are not given; else the JSON file,
/// if it is wanted, and then the typed binding module, if it is wanted.
pub open spec fn are_artifacts(
    ws: Workspace,
    schema: WithOrigin<Result<RuuLangFile>>,
    json: Option<JsonTexts>,
    out: Seq<(String, String)>,
) -> bool {
    match (schema.data, json) {
        (Ok(file), Some(texts)) => {
            let first = if json_wanted(ws) {
                1int
            } else {
                0int
            };
            let second = if python_wanted(ws, schema) {
                1int
            } else {
                0int
            };
            &&& out.len() == first + second
            &&& json_wanted(ws) ==> is_json_artifact(schema, texts, out[0])
            &&& python_wanted(ws, schema) ==> is_python_artifact(ws, schema, texts, out[first])
        },
        _ => out.len() == 0,
    }
}

impl Workspace {
    /// The artifacts of one file of the workspace, each as a path and a
    /// text. The JSON texts of the file's syntax are given, as they are not
    /// made here.
    pub fn compile_one(&self, schema: &WithOrigin<Result<RuuLangFile>>, json: &Option<JsonTexts>) -> (r:
        Vec<(String, String)>)
        ensures
            are_artifacts(*self, *schema, *json, r@),
    {
        let mut out: Vec<(String, String)> = Vec::new();
        let texts = match (&schema.data, json) {
            (Ok(_), Some(texts)) => texts,
            _ => {
                return out;
            },
        };
        if self.config.json_enabled() {
            proof {
                reveal_strlit("json");
                assert(no_separator("json"@));
            }
            out.push((Self::output_path(&schema.origin, "json"), texts.pretty.clone()));
        }
        if self.config.python_enabled() {
            if let Some(module) = self.compile_one_python(schema, &texts.compact) {
                out.push(module);
            }
        }
        out
    }

    /// The artifacts of every file of the workspace, file by file.
    pub fn compile_all(&self, json: &Vec<Option<JsonTexts>>) -> (r: Vec<Vec<(String, String)>>)
        requires
            json@.len() == self.files@.len(),
        ensures
            r@.len() == self.files@.len(),
            forall|i: int|
                0 <= i < r@.len() ==> are_artifacts(
                    *self,
                    self.files@[i],
                    json@[i],
                    (#[trigger] r@[i])@,
                ),
    {
        let mut all: Vec<Vec<(String, String)>> = Vec::new();
        let mut i: usize = 0;
        while i < self.files.len()
            invariant
                i <= self.files@.len(),
                json@.len() == self.files@.len(),
                all@.len() == i,
                forall|k: int|
                    0 <= k < i ==> are_artifacts(
                        *self,
                        self.files@[k],
                        json@[k],
                        (#[trigger] all@[k])@,
                    ),
            decreases self.files@.len() - i,
        {
            all.push(self.compile_one(&self.files[i], &json[i]));
            i += 1;
        }
        all
    }
}

} // verus!
