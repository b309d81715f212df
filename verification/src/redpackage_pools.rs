//! What a package that is being written holds besides its chunks: names,
//! imports and handles.

use crate::archive;
use crate::archive::depot_path_hash;
use crate::entries;
use crate::number_text;
use crate::number_text::{parse_signed, signed_decimal_text};
use crate::redpackage;
use crate::redpackage::{malformed, unsupported, Import, PackageError, PackagePath};
use crate::redpackage_reader::{Package, Reader};
use crate::text::{chars_of, same_text};
use crate::value;
use crate::value::{copy_text, Value};
use vstd::prelude::*;

verus! {

/// What does not change while a package is written.
pub ghost struct Source {
    pub package: Package,
    pub class_templates: Seq<(Seq<char>, nat)>,
    pub hashed: bool,
    pub discovering: bool,
}

/// What is collected while a package is written. A chunk is the value of a
/// document at a path: the indices of entries and items that lead to it.
pub ghost struct State {
    pub names: Seq<Seq<char>>,
    pub imports: Seq<redpackage::ImportModel>,
    pub known: Seq<(Seq<char>, bool, nat)>,
    pub chunks: Seq<(nat, Seq<nat>, value::Model)>,
    pub templates: Seq<nat>,
    pub ids: Seq<(Seq<char>, nat)>,
    pub claimed: Seq<nat>,
}

/// Writes a package.
pub struct Encoder<'a> {
    pub reader: Reader<'a>,
    pub names: Vec<String>,
    pub imports: Vec<Import>,
    pub known: Vec<(String, bool, usize)>,
    pub chunks: Vec<(usize, Vec<usize>, &'a Value)>,
    pub templates: Vec<usize>,
    pub ids: Vec<(String, usize)>,
    pub claimed: Vec<usize>,
    pub class_templates: Vec<(String, usize)>,
    pub hashed: bool,
    pub discovering: bool,
}

/// Numbers as they are.
pub open spec fn numbers(list: Seq<usize>) -> Seq<nat> {
    list.map_values(|n: usize| n as nat)
}

/// Imports that are known by path.
pub open spec fn known_models(list: Seq<(String, bool, usize)>) -> Seq<(Seq<char>, bool, nat)> {
    list.map_values(|k: (String, bool, usize)| (k.0@, k.1, k.2 as nat))
}

/// Indices that are known by text.
pub open spec fn text_indices(list: Seq<(String, usize)>) -> Seq<(Seq<char>, nat)> {
    list.map_values(|k: (String, usize)| (k.0@, k.1 as nat))
}

/// Chunks and where they stand in the document.
pub open spec fn chunk_models(list: Seq<(usize, Vec<usize>, &Value)>) -> Seq<
    (nat, Seq<nat>, value::Model),
> {
    list.map_values(|c: (usize, Vec<usize>, &Value)| (c.0 as nat, numbers(c.1@), c.2@))
}

impl<'a> Encoder<'a> {
    /// What does not change while the package is written.
    pub open spec fn source(&self) -> Source {
        Source {
            package: self.reader@,
            class_templates: text_indices(self.class_templates@),
            hashed: self.hashed,
            discovering: self.discovering,
        }
    }
}

impl<'a> View for Encoder<'a> {
    type V = State;

    open spec fn view(&self) -> State {
        State {
            names: redpackage::name_texts(self.names@),
            imports: redpackage::import_models(self.imports@),
            known: known_models(self.known@),
            chunks: chunk_models(self.chunks@),
            templates: numbers(self.templates@),
            ids: text_indices(self.ids@),
            claimed: numbers(self.claimed@),
        }
    }
}

/// The last place of a name.
pub open spec fn last_name(names: Seq<Seq<char>>, name: Seq<char>) -> Option<nat>
    decreases names.len(),
{
    if names.len() == 0 {
        None
    } else if names.last() == name {
        Some((names.len() - 1) as nat)
    } else {
        last_name(names.drop_last(), name)
    }
}

/// The index of a name, which is added if it is new.
pub open spec fn with_name(state: State, name: Seq<char>) -> Result<
    (nat, State),
    redpackage::Fault,
> {
    match last_name(state.names, name) {
        Some(index) => if index > 0xffff {
            redpackage::fault(0, "name index"@)
        } else {
            Ok((index, state))
        },
        None => if state.names.len() > 0xffff {
            redpackage::fault(0, "name index"@)
        } else {
            Ok((state.names.len(), State { names: state.names.push(name), ..state }))
        },
    }
}

/// The last index that is known for a path.
pub open spec fn known_import(known: Seq<(Seq<char>, bool, nat)>, path: Seq<char>, soft: bool) -> Option<
    nat,
>
    decreases known.len(),
{
    if known.len() == 0 {
        None
    } else if known.last().0 == path && known.last().1 == soft {
        Some(known.last().2)
    } else {
        known_import(known.drop_last(), path, soft)
    }
}

/// An import that leads to a path.
pub open spec fn leads_to(import: redpackage::ImportModel, path: Seq<char>, hash: u64, soft: bool) -> bool {
    import.soft == soft && match import.path {
        redpackage::PathModel::Text(text) => text == path,
        redpackage::PathModel::Hash(stored) => stored == hash,
    }
}

/// The first import from index `i` on that leads to a path.
pub open spec fn stored_import(
    imports: Seq<redpackage::ImportModel>,
    i: nat,
    path: Seq<char>,
    hash: u64,
    soft: bool,
) -> Option<nat>
    decreases imports.len() - i,
{
    if i >= imports.len() {
        None
    } else if leads_to(imports[i as int], path, hash, soft) {
        Some(i)
    } else {
        stored_import(imports, i + 1, path, hash, soft)
    }
}

/// The index of an import, which is added if it is new.
pub open spec fn with_import(
    source: Source,
    state: State,
    path: Seq<char>,
    explicit: Option<nat>,
    soft: bool,
) -> Result<(nat, State), redpackage::Fault> {
    match known_import(state.known, path, soft) {
        Some(index) => Ok((index, state)),
        None => {
            let hash = match explicit {
                Some(hash) => hash as u64,
                None => archive::depot_hash(path),
            };
            match stored_import(source.package.imports, 0, path, hash, soft) {
                Some(index) => if index > 0x7fff {
                    redpackage::fault(index, "import index"@)
                } else {
                    Ok((index, State { known: state.known.push((path, soft, index)), ..state }))
                },
                None => if state.imports.len() > 0x7fff {
                    redpackage::fault(0, "import index"@)
                } else {
                    let index = state.imports.len();
                    let import = redpackage::ImportModel {
                        path: if source.hashed {
                            redpackage::PathModel::Hash(hash)
                        } else {
                            redpackage::PathModel::Text(path)
                        },
                        soft,
                    };
                    Ok(
                        (
                            index,
                            State {
                                imports: state.imports.push(import),
                                known: state.known.push((path, soft, index)),
                                ..state
                            },
                        ),
                    )
                },
            }
        },
    }
}

/// The chunk of an index.
pub open spec fn chunk_of(chunks: Seq<(nat, Seq<nat>, value::Model)>, index: nat) -> Option<
    (Seq<nat>, value::Model),
>
    decreases chunks.len(),
{
    if chunks.len() == 0 {
        None
    } else if chunks[0].0 == index {
        Some((chunks[0].1, chunks[0].2))
    } else {
        chunk_of(chunks.drop_first(), index)
    }
}

/// Where the chunk of an index stands, or the number of chunks.
pub open spec fn chunk_place(chunks: Seq<(nat, Seq<nat>, value::Model)>, index: nat) -> nat
    decreases chunks.len(),
{
    if chunks.len() == 0 || chunks[0].0 == index {
        0
    } else {
        1 + chunk_place(chunks.drop_first(), index)
    }
}

/// Chunks with that of an index set.
pub open spec fn with_chunk(
    chunks: Seq<(nat, Seq<nat>, value::Model)>,
    index: nat,
    path: Seq<nat>,
    data: value::Model,
) -> Seq<(nat, Seq<nat>, value::Model)> {
    let at = chunk_place(chunks, index) as int;
    if at < chunks.len() {
        chunks.update(at, (index, path, data))
    } else {
        chunks.push((index, path, data))
    }
}

/// The first chunk that stands at a path.
pub open spec fn chunk_at_path(chunks: Seq<(nat, Seq<nat>, value::Model)>, path: Seq<nat>) -> Option<
    nat,
>
    decreases chunks.len(),
{
    if chunks.len() == 0 {
        None
    } else if chunks[0].1 == path {
        Some(chunks[0].0)
    } else {
        chunk_at_path(chunks.drop_first(), path)
    }
}

/// The last index that a text has.
pub open spec fn last_index(list: Seq<(Seq<char>, nat)>, text: Seq<char>) -> Option<nat>
    decreases list.len(),
{
    if list.len() == 0 {
        None
    } else if list.last().0 == text {
        Some(list.last().1)
    } else {
        last_index(list.drop_last(), text)
    }
}

/// A handle pointer, if it can be written.
pub open spec fn pointer_of(index: nat, start: nat) -> Result<int, redpackage::Fault> {
    if index <= 0x7fff_ffff {
        Ok(index as int)
    } else {
        redpackage::fault(start, "handle pointer"@)
    }
}

/// A pointer with the state that goes with it.
pub open spec fn pointing(index: nat, start: nat, state: State) -> Result<
    (int, State),
    redpackage::Fault,
> {
    match pointer_of(index, start) {
        Ok(pointer) => Ok((pointer, state)),
        Err(f) => Err(f),
    }
}

/// A chunk that a handle leads to for the first time.
pub open spec fn new_chunk(
    source: Source,
    state: State,
    data: value::Model,
    path: Seq<nat>,
    id: Option<Seq<char>>,
    template: int,
    start: nat,
) -> Result<(int, State), redpackage::Fault> {
    let model = if template >= 0 {
        Ok(template as nat)
    } else {
        match value::member(data, "$type"@) {
            None => redpackage::fault(start, "handle class"@),
            Some(class) => match value::text_of(class) {
                None => redpackage::fault(start, "handle class"@),
                Some(class) => match last_index(source.class_templates, class) {
                    Some(index) => Ok(index),
                    None => Err(redpackage::Fault::Unsupported("new package handle class"@)),
                },
            },
        }
    };
    match model {
        Err(f) => Err(f),
        Ok(model) => if template >= 0 && !state.claimed.contains(model) {
            pointing(
                model,
                start,
                State {
                    claimed: state.claimed.push(model),
                    chunks: with_chunk(state.chunks, model, path, data),
                    ids: match id {
                        Some(id) => state.ids.push((id, model)),
                        None => state.ids,
                    },
                    ..state
                },
            )
        } else if !source.discovering {
            Err(redpackage::Fault::Unsupported("late package handle discovery"@))
        } else {
            let index = state.templates.len();
            pointing(
                index,
                start,
                State {
                    templates: state.templates.push(model),
                    claimed: state.claimed.push(index),
                    chunks: with_chunk(state.chunks, index, path, data),
                    ids: match id {
                        Some(id) => state.ids.push((id, index)),
                        None => state.ids,
                    },
                    ..state
                },
            )
        },
    }
}

/// The text under a key.
pub open spec fn text_member(value: value::Model, key: Seq<char>) -> Option<Seq<char>> {
    match value::member(value, key) {
        Some(inner) => value::text_of(inner),
        None => None,
    }
}

/// The pointer of a handle.
pub open spec fn resolved(
    source: Source,
    state: State,
    value: value::Model,
    path: Seq<nat>,
    template: int,
    start: nat,
) -> Result<(int, State), redpackage::Fault> {
    if value is Null {
        Ok((-1, state))
    } else {
        match text_member(value, "HandleRefId"@) {
            Some(reference) => match number_text::signed_value(reference) {
                None => redpackage::fault(start, "handle reference"@),
                Some(n) => if n < 0 {
                    Ok((-1, state))
                } else {
                    match last_index(state.ids, number_text::signed_decimal(n)) {
                        None => Err(
                            redpackage::Fault::Unsupported("unknown package handle reference"@),
                        ),
                        Some(index) => pointing(index, start, state),
                    }
                },
            },
            None => match (value::member(value, "Data"@), value) {
                (Some(data), value::Model::Object(entries)) => {
                    let place = path.push(entries::index_of(entries, "Data"@)->0);
                    let id = text_member(value, "HandleId"@);
                    let met = match id {
                        Some(id) => last_index(state.ids, id),
                        None => None,
                    };
                    match met {
                        Some(index) => pointing(
                            index,
                            start,
                            State { chunks: with_chunk(state.chunks, index, place, data), ..state },
                        ),
                        None => match chunk_at_path(state.chunks, place) {
                            Some(index) => pointing(index, start, state),
                            None => new_chunk(source, state, data, place, id, template, start),
                        },
                    }
                },
                _ => redpackage::fault(start, "handle Data"@),
            },
        }
    }
}

fn same_path(a: &Vec<usize>, b: &Vec<usize>) -> (result: bool)
    ensures
        result == (numbers(a@) == numbers(b@)),
{
    if a.len() != b.len() {
        assert(numbers(a@).len() != numbers(b@).len());
        return false;
    }
    let mut i: usize = 0;
    while i < a.len()
        invariant
            i <= a@.len() == b@.len(),
            forall|k: int| 0 <= k < i ==> a@[k] == b@[k],
        decreases a@.len() - i,
    {
        if a[i] != b[i] {
            assert(numbers(a@)[i as int] != numbers(b@)[i as int]);
            return false;
        }
        i = i + 1;
    }
    assert(numbers(a@) =~= numbers(b@));
    true
}

/// A path one step longer.
pub fn longer(path: &Vec<usize>, step: usize) -> (result: Vec<usize>)
    ensures
        numbers(result@) == numbers(path@).push(step as nat),
{
    let mut copy: Vec<usize> = Vec::new();
    let mut i: usize = 0;
    while i < path.len()
        invariant
            i <= path@.len(),
            copy@ =~= path@.subrange(0, i as int),
        decreases path@.len() - i,
    {
        copy.push(path[i]);
        i = i + 1;
    }
    copy.push(step);
    assert(numbers(copy@) =~= numbers(path@).push(step as nat));
    copy
}

fn find_text(list: &Vec<(String, usize)>, text: &str) -> (result: Option<usize>)
    ensures
        match last_index(text_indices(list@), text@) {
            Some(index) => result matches Some(r) && r == index,
            None => result is None,
        },
{
    let ghost all = text_indices(list@);
    let mut n: usize = list.len();
    assert(all.subrange(0, n as int) =~= all);
    while n > 0
        invariant
            n <= list@.len(),
            all == text_indices(list@),
            last_index(all, text@) == last_index(all.subrange(0, n as int), text@),
        decreases n,
    {
        let ghost front = all.subrange(0, n as int);
        assert(front.last() == (list@[n - 1].0@, list@[n - 1].1 as nat));
        if same_text(list[n - 1].0.as_str(), text) {
            return Some(list[n - 1].1);
        }
        assert(front.drop_last() =~= all.subrange(0, n - 1));
        n = n - 1;
    }
    None
}

impl<'a> Encoder<'a> {
    /// The index of a name, which is added if it is new.
    pub fn name_index(&mut self, name: &str) -> (result: Result<u16, PackageError>)
        ensures
            final(self).source() == old(self).source(),
            final(self).reader == old(self).reader,
            match with_name(old(self)@, name@) {
                Ok((index, state)) => result matches Ok(r) && r == index && final(self)@ == state,
                Err(f) => result matches Err(e) && e@ == f,
            },
    {
        let ghost all = redpackage::name_texts(self.names@);
        let mut n: usize = self.names.len();
        assert(all.subrange(0, n as int) =~= all);
        while n > 0
            invariant
                n <= self.names@.len(),
                *self == *old(self),
                all == redpackage::name_texts(self.names@),
                last_name(all, name@) == last_name(all.subrange(0, n as int), name@),
            decreases n,
        {
            let ghost front = all.subrange(0, n as int);
            assert(front.last() == self.names@[n - 1]@);
            if same_text(self.names[n - 1].as_str(), name) {
                if n - 1 > 0xffff {
                    return Err(malformed(0, "name index"));
                }
                return Ok((n - 1) as u16);
            }
            assert(front.drop_last() =~= all.subrange(0, n - 1));
            n = n - 1;
        }
        if self.names.len() > 0xffff {
            return Err(malformed(0, "name index"));
        }
        let index: u16 = self.names.len() as u16;
        let copy: String = copy_text(name);
        assert(redpackage::name_texts(self.names@.push(copy)) =~= all.push(name@));
        self.names.push(copy);
        Ok(index)
    }

    /// The index of an import, which is added if it is new.
    #[verifier::loop_isolation(false)]
    pub fn import_index(&mut self, path: &str, explicit: Option<u64>, soft: bool) -> (result: Result<
        usize,
        PackageError,
    >)
        ensures
            final(self).source() == old(self).source(),
            final(self).reader == old(self).reader,
            match with_import(
                old(self).source(),
                old(self)@,
                path@,
                match explicit {
                    Some(hash) => Some(hash as nat),
                    None => None,
                },
                soft,
            ) {
                Ok((index, state)) => result matches Ok(r) && r == index && final(self)@ == state,
                Err(f) => result matches Err(e) && e@ == f,
            },
    {
        let ghost all = known_models(self.known@);
        let mut n: usize = self.known.len();
        assert(all.subrange(0, n as int) =~= all);
        while n > 0
            invariant
                n <= self.known@.len(),
                *self == *old(self),
                known_import(all, path@, soft) == known_import(
                    all.subrange(0, n as int),
                    path@,
                    soft,
                ),
            decreases n,
        {
            let ghost front = all.subrange(0, n as int);
            assert(front.last() == (
                self.known@[n - 1].0@,
                self.known@[n - 1].1,
                self.known@[n - 1].2 as nat,
            ));
            if same_text(self.known[n - 1].0.as_str(), path) && self.known[n - 1].1 == soft {
                return Ok(self.known[n - 1].2);
            }
            assert(front.drop_last() =~= all.subrange(0, n - 1));
            n = n - 1;
        }
        let hash: u64 = match explicit {
            Some(hash) => hash,
            None => depot_path_hash(path),
        };
        let stored: &Vec<Import> = self.reader.imports;
        let ghost imports = redpackage::import_models(stored@);
        let mut i: usize = 0;
        while i < stored.len()
            invariant
                i <= stored@.len(),
                *self == *old(self),
                stored_import(imports, 0, path@, hash, soft) == stored_import(
                    imports,
                    i as nat,
                    path@,
                    hash,
                    soft,
                ),
            decreases stored@.len() - i,
        {
            assert(imports[i as int] == stored@[i as int]@);
            let found: bool = stored[i].soft == soft && match &stored[i].path {
                PackagePath::Text(text) => same_text(text.as_str(), path),
                PackagePath::Hash(value) => *value == hash,
            };
            if found {
                if i > 0x7fff {
                    return Err(malformed(i, "import index"));
                }
                let entry: (String, bool, usize) = (copy_text(path), soft, i);
                assert(known_models(self.known@.push(entry)) =~= all.push((path@, soft, i as nat)));
                self.known.push(entry);
                return Ok(i);
            }
            i = i + 1;
        }
        if self.imports.len() > 0x7fff {
            return Err(malformed(0, "import index"));
        }
        let index: usize = self.imports.len();
        let place: PackagePath = if self.hashed {
            PackagePath::Hash(hash)
        } else {
            PackagePath::Text(copy_text(path))
        };
        let import: Import = Import { path: place, soft };
        let entry: (String, bool, usize) = (copy_text(path), soft, index);
        assert(known_models(self.known@.push(entry)) =~= all.push((path@, soft, index as nat)));
        assert(redpackage::import_models(self.imports@.push(import)) =~= redpackage::import_models(
            self.imports@,
        ).push(import@));
        self.imports.push(import);
        self.known.push(entry);
        Ok(index)
    }

    fn set_chunk(&mut self, index: usize, path: Vec<usize>, data: &'a Value)
        ensures
            final(self).source() == old(self).source(),
            final(self).reader == old(self).reader,
            final(self)@ == (State {
                chunks: with_chunk(
                    old(self)@.chunks,
                    index as nat,
                    numbers(path@),
                    data@,
                ),
                ..old(self)@
            }),
    {
        let ghost all = chunk_models(self.chunks@);
        let ghost added = (index as nat, numbers(path@), data@);
        assert(all.subrange(0, all.len() as int) =~= all);
        let mut i: usize = 0;
        let mut searching: bool = true;
        while searching && i < self.chunks.len()
            invariant
                i <= self.chunks@.len(),
                *self == *old(self),
                all == chunk_models(self.chunks@),
                searching ==> chunk_place(all, index as nat) == i + chunk_place(
                    all.subrange(i as int, all.len() as int),
                    index as nat,
                ),
                !searching ==> i < self.chunks@.len() && chunk_place(all, index as nat) == i,
            decreases
                self.chunks@.len() - i + (if searching {
                    1int
                } else {
                    0int
                }),
        {
            let ghost rest = all.subrange(i as int, all.len() as int);
            assert(rest[0] == all[i as int]);
            assert(all[i as int].0 == self.chunks@[i as int].0 as nat);
            if self.chunks[i].0 == index {
                searching = false;
            } else {
                assert(rest.drop_first() =~= all.subrange(i + 1, all.len() as int));
                i = i + 1;
            }
        }
        let chunk: (usize, Vec<usize>, &'a Value) = (index, path, data);
        if i < self.chunks.len() {
            assert(chunk_models(self.chunks@.update(i as int, chunk)) =~= all.update(
                i as int,
                added,
            ));
            self.chunks.set(i, chunk);
        } else {
            assert(chunk_models(self.chunks@.push(chunk)) =~= all.push(added));
            self.chunks.push(chunk);
        }
    }

    fn find_path(&self, path: &Vec<usize>) -> (result: Option<usize>)
        ensures
            match chunk_at_path(self@.chunks, numbers(path@)) {
                Some(index) => result matches Some(r) && r == index,
                None => result is None,
            },
    {
        let ghost all = chunk_models(self.chunks@);
        assert(all.subrange(0, all.len() as int) =~= all);
        let mut i: usize = 0;
        while i < self.chunks.len()
            invariant
                i <= self.chunks@.len(),
                all == chunk_models(self.chunks@),
                chunk_at_path(all, numbers(path@)) == chunk_at_path(
                    all.subrange(i as int, all.len() as int),
                    numbers(path@),
                ),
            decreases self.chunks@.len() - i,
        {
            let ghost rest = all.subrange(i as int, all.len() as int);
            assert(rest[0] == all[i as int]);
            assert(all[i as int].1 == numbers(self.chunks@[i as int].1@));
            if same_path(&self.chunks[i].1, path) {
                return Some(self.chunks[i].0);
            }
            assert(rest.drop_first() =~= all.subrange(i + 1, all.len() as int));
            i = i + 1;
        }
        None
    }

    /// The chunk of an index.
    pub fn chunk_position(&self, index: usize) -> (result: Option<usize>)
        ensures
            match chunk_of(self@.chunks, index as nat) {
                Some((path, data)) => result matches Some(r) && r < self.chunks@.len()
                    && numbers(self.chunks@[r as int].1@) == path && self.chunks@[r as int].2@
                    == data,
                None => result is None,
            },
    {
        let ghost all = chunk_models(self.chunks@);
        assert(all.subrange(0, all.len() as int) =~= all);
        let mut i: usize = 0;
        while i < self.chunks.len()
            invariant
                i <= self.chunks@.len(),
                all == chunk_models(self.chunks@),
                chunk_of(all, index as nat) == chunk_of(
                    all.subrange(i as int, all.len() as int),
                    index as nat,
                ),
            decreases self.chunks@.len() - i,
        {
            let ghost rest = all.subrange(i as int, all.len() as int);
            assert(rest[0] == all[i as int]);
            if self.chunks[i].0 == index {
                return Some(i);
            }
            assert(rest.drop_first() =~= all.subrange(i + 1, all.len() as int));
            i = i + 1;
        }
        None
    }

    fn is_claimed(&self, index: usize) -> (result: bool)
        ensures
            result == self@.claimed.contains(index as nat),
    {
        let mut i: usize = 0;
        while i < self.claimed.len()
            invariant
                i <= self.claimed@.len(),
                forall|k: int| 0 <= k < i ==> self@.claimed[k] != index as nat,
            decreases self.claimed@.len() - i,
        {
            assert(self@.claimed[i as int] == self.claimed@[i as int] as nat);
            if self.claimed[i] == index {
                return true;
            }
            i = i + 1;
        }
        false
    }

    fn claim(&mut self, index: usize, id: Option<&str>)
        ensures
            final(self).source() == old(self).source(),
            final(self).reader == old(self).reader,
            final(self)@ == (State {
                claimed: old(self)@.claimed.push(index as nat),
                ids: match id {
                    Some(id) => old(self)@.ids.push((id@, index as nat)),
                    None => old(self)@.ids,
                },
                ..old(self)@
            }),
    {
        assert(numbers(self.claimed@.push(index)) =~= numbers(self.claimed@).push(index as nat));
        self.claimed.push(index);
        if let Some(id) = id {
            let entry: (String, usize) = (copy_text(id), index);
            assert(text_indices(self.ids@.push(entry)) =~= text_indices(self.ids@).push(
                (id@, index as nat),
            ));
            self.ids.push(entry);
        }
    }

    fn add_chunk(
        &mut self,
        data: &'a Value,
        path: Vec<usize>,
        id: Option<&str>,
        template: i32,
        start: usize,
    ) -> (result: Result<i32, PackageError>)
        ensures
            final(self).source() == old(self).source(),
            final(self).reader == old(self).reader,
            match new_chunk(
                old(self).source(),
                old(self)@,
                data@,
                numbers(path@),
                match id {
                    Some(id) => Some(id@),
                    None => None,
                },
                template as int,
                start as nat,
            ) {
                Ok((pointer, state)) => result matches Ok(r) && r == pointer && final(self)@
                    == state,
                Err(f) => result matches Err(e) && e@ == f,
            },
    {
        let model: usize = if template >= 0 {
            template as usize
        } else {
            let class: &str = match data.get("$type") {
                None => return Err(malformed(start, "handle class")),
                Some(class) => match class.as_text() {
                    None => return Err(malformed(start, "handle class")),
                    Some(class) => class,
                },
            };
            match find_text(&self.class_templates, class) {
                Some(index) => index,
                None => return Err(unsupported("new package handle class")),
            }
        };
        let index: usize = if template >= 0 && !self.is_claimed(model) {
            model
        } else {
            if !self.discovering {
                return Err(unsupported("late package handle discovery"));
            }
            let index: usize = self.templates.len();
            assert(numbers(self.templates@.push(model)) =~= numbers(self.templates@).push(
                model as nat,
            ));
            self.templates.push(model);
            index
        };
        self.claim(index, id);
        self.set_chunk(index, path, data);
        if index > 0x7fff_ffff {
            return Err(malformed(start, "handle pointer"));
        }
        Ok(index as i32)
    }

    /// The pointer of a handle.
    pub fn resolve_handle(
        &mut self,
        value: &'a Value,
        path: &Vec<usize>,
        template: i32,
        start: usize,
    ) -> (result: Result<i32, PackageError>)
        ensures
            final(self).source() == old(self).source(),
            final(self).reader == old(self).reader,
            match resolved(
                old(self).source(),
                old(self)@,
                value@,
                numbers(path@),
                template as int,
                start as nat,
            ) {
                Ok((pointer, state)) => result matches Ok(r) && r == pointer && final(self)@
                    == state,
                Err(f) => result matches Err(e) && e@ == f,
            },
    {
        if let Value::Null = value {
            return Ok(-1);
        }
        let reference: Option<&str> = match value.get("HandleRefId") {
            Some(inner) => inner.as_text(),
            None => None,
        };
        if let Some(reference) = reference {
            let chars: Vec<char> = chars_of(reference);
            let n: i64 = match parse_signed(&chars) {
                Some(n) => n,
                None => return Err(malformed(start, "handle reference")),
            };
            if n < 0 {
                return Ok(-1);
            }
            return match find_text(&self.ids, signed_decimal_text(n).as_str()) {
                None => Err(unsupported("unknown package handle reference")),
                Some(index) => if index > 0x7fff_ffff {
                    Err(malformed(start, "handle pointer"))
                } else {
                    Ok(index as i32)
                },
            };
        }
        let entries: &Vec<(String, Value)> = match value {
            Value::Object(entries) => entries,
            _ => return Err(malformed(start, "handle Data")),
        };
        let at: usize = match entry_position(entries, "Data") {
            Some(at) => at,
            None => return Err(malformed(start, "handle Data")),
        };
        let data: &'a Value = &entries[at].1;
        let place: Vec<usize> = longer(path, at);
        let id: Option<&str> = match value.get("HandleId") {
            Some(inner) => inner.as_text(),
            None => None,
        };
        let met: Option<usize> = match id {
            Some(id) => find_text(&self.ids, id),
            None => None,
        };
        if let Some(index) = met {
            self.set_chunk(index, place, data);
            if index > 0x7fff_ffff {
                return Err(malformed(start, "handle pointer"));
            }
            return Ok(index as i32);
        }
        if let Some(index) = self.find_path(&place) {
            if index > 0x7fff_ffff {
                return Err(malformed(start, "handle pointer"));
            }
            return Ok(index as i32);
        }
        self.add_chunk(data, place, id, template, start)
    }
}

/// The first entry under a key.
pub fn entry_position(entries: &Vec<(String, Value)>, key: &str) -> (result: Option<usize>)
    ensures
        match result {
            Some(i) => i < entries@.len() && entries@[i as int].0@ == key@ && entries::index_of(
                value::entry_models(entries@),
                key@,
            ) == Some(i as nat) && entries::find(value::entry_models(entries@), key@) == Some(
                value::model(entries@[i as int].1),
            ),
            None => entries::find(value::entry_models(entries@), key@) is None
                && entries::index_of(value::entry_models(entries@), key@) is None,
        },
{
    let ghost all = value::entry_models(entries@);
    proof {
        value::lemma_entry_models(entries@);
        entries::lemma_index_of(all, key@);
        assert(all.subrange(0, all.len() as int) =~= all);
    }
    let mut i: usize = 0;
    while i < entries.len()
        invariant
            i <= entries@.len(),
            all == value::entry_models(entries@),
            all.len() == entries@.len(),
            forall|k: int|
                0 <= k < entries@.len() ==> #[trigger] all[k] == (
                    entries@[k].0@,
                    value::model(entries@[k].1),
                ),
            match entries::index_of(all.subrange(i as int, all.len() as int), key@) {
                Some(k) => entries::index_of(all, key@) == Some(i as nat + k),
                None => entries::index_of(all, key@) is None,
            },
            match entries::index_of(all, key@) {
                Some(k) => k < all.len() && all[k as int].0 == key@ && entries::find(all, key@)
                    == Some(all[k as int].1),
                None => entries::find(all, key@) is None,
            },
        decreases entries@.len() - i,
    {
        let ghost rest = all.subrange(i as int, all.len() as int);
        assert(rest[0] == all[i as int]);
        if same_text(entries[i].0.as_str(), key) {
            return Some(i);
        }
        assert(rest.drop_first() =~= all.subrange(i + 1, all.len() as int));
        i = i + 1;
    }
    None
}

} // verus!
