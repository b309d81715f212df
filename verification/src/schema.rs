//! Reflection schemas of RED classes.

use crate::entries;
use crate::entries::{add_name, position, set_value};
use crate::text::same_text;
use crate::value::copy_text;
use vstd::prelude::*;

verus! {

/// A property of a class.
#[derive(Debug, PartialEq, Eq)]
pub struct RedProperty {
    pub cs_type: String,
    pub ordinal: Option<u32>,
    pub red_type: Option<String>,
    pub offset: Option<usize>,
    pub flags: Option<u64>,
}

/// A class: what it is derived from, and its properties in the order of their
/// names.
#[derive(Debug, PartialEq, Eq)]
pub struct RedClass {
    pub base: Option<String>,
    pub properties: Vec<(String, RedProperty)>,
    pub flags: Option<u64>,
    pub size: Option<usize>,
    pub alignment: Option<usize>,
}

/// Reflected types. Classes and aliases stand in the order of their names, and
/// so do the names of enumerations, bit fields and simple types.
#[derive(Debug, PartialEq, Eq)]
pub struct RedSchema {
    pub classes: Vec<(String, RedClass)>,
    pub enums: Vec<String>,
    pub bitfields: Vec<String>,
    pub aliases: Vec<(String, String)>,
    pub simple_types: Vec<String>,
}

/// What a property holds.
pub ghost struct PropertyModel {
    pub cs_type: Seq<char>,
    pub ordinal: Option<u32>,
    pub red_type: Option<Seq<char>>,
    pub offset: Option<usize>,
    pub flags: Option<u64>,
}

/// What a class holds.
pub ghost struct ClassModel {
    pub base: Option<Seq<char>>,
    pub properties: Seq<(Seq<char>, PropertyModel)>,
    pub flags: Option<u64>,
    pub size: Option<usize>,
    pub alignment: Option<usize>,
}

/// What a schema holds.
pub ghost struct SchemaModel {
    pub classes: Seq<(Seq<char>, ClassModel)>,
    pub enums: Seq<(Seq<char>, ())>,
    pub bitfields: Seq<(Seq<char>, ())>,
    pub aliases: Seq<(Seq<char>, Seq<char>)>,
    pub simple_types: Seq<(Seq<char>, ())>,
}

/// A text, if there is one.
pub open spec fn optional_text(text: Option<String>) -> Option<Seq<char>> {
    match text {
        Some(text) => Some(text@),
        None => None,
    }
}

impl View for RedProperty {
    type V = PropertyModel;

    open spec fn view(&self) -> PropertyModel {
        PropertyModel {
            cs_type: self.cs_type@,
            ordinal: self.ordinal,
            red_type: optional_text(self.red_type),
            offset: self.offset,
            flags: self.flags,
        }
    }
}

impl View for RedClass {
    type V = ClassModel;

    open spec fn view(&self) -> ClassModel {
        ClassModel {
            base: optional_text(self.base),
            properties: entries::keyed(self.properties@),
            flags: self.flags,
            size: self.size,
            alignment: self.alignment,
        }
    }
}

impl View for RedSchema {
    type V = SchemaModel;

    open spec fn view(&self) -> SchemaModel {
        SchemaModel {
            classes: entries::keyed(self.classes@),
            enums: entries::name_keys(self.enums@),
            bitfields: entries::name_keys(self.bitfields@),
            aliases: entries::keyed(self.aliases@),
            simple_types: entries::name_keys(self.simple_types@),
        }
    }
}

impl Default for RedSchema {
    fn default() -> (result: Self)
        ensures
            result@ == nothing(),
    {
        let schema: RedSchema = RedSchema {
            classes: Vec::new(),
            enums: Vec::new(),
            bitfields: Vec::new(),
            aliases: Vec::new(),
            simple_types: Vec::new(),
        };
        assert(schema@.classes =~= nothing().classes);
        assert(schema@.enums =~= nothing().enums);
        assert(schema@.bitfields =~= nothing().bitfields);
        assert(schema@.aliases =~= nothing().aliases);
        assert(schema@.simple_types =~= nothing().simple_types);
        schema
    }
}

/// A schema without types.
pub open spec fn nothing() -> SchemaModel {
    SchemaModel {
        classes: Seq::empty(),
        enums: Seq::empty(),
        bitfields: Seq::empty(),
        aliases: Seq::empty(),
        simple_types: Seq::empty(),
    }
}

/// Of two choices the second, where there is one.
pub open spec fn preferred<T>(own: Option<T>, incoming: Option<T>) -> Option<T> {
    if incoming is Some {
        incoming
    } else {
        own
    }
}

/// Entries after those of others were set, in order.
pub open spec fn extended<V>(
    own: Seq<(Seq<char>, V)>,
    others: Seq<(Seq<char>, V)>,
) -> Seq<(Seq<char>, V)>
    decreases others.len(),
{
    if others.len() == 0 {
        own
    } else {
        entries::put(extended(own, others.drop_last()), others.last().0, others.last().1)
    }
}

/// A class under another of its name: what the other states goes first, and
/// properties that it lacks stay.
pub open spec fn overlaid(own: ClassModel, incoming: ClassModel) -> ClassModel {
    ClassModel {
        base: preferred(own.base, incoming.base),
        properties: extended(own.properties, incoming.properties),
        flags: preferred(own.flags, incoming.flags),
        size: preferred(own.size, incoming.size),
        alignment: preferred(own.alignment, incoming.alignment),
    }
}

/// Classes after one came in.
pub open spec fn with_class(
    own: Seq<(Seq<char>, ClassModel)>,
    name: Seq<char>,
    incoming: ClassModel,
) -> Seq<(Seq<char>, ClassModel)> {
    match entries::index_of(own, name) {
        Some(i) => own.update(i as int, (name, overlaid(own[i as int].1, incoming))),
        None => entries::put(own, name, incoming),
    }
}

/// Classes after others came in, in order.
pub open spec fn merged_classes(
    own: Seq<(Seq<char>, ClassModel)>,
    others: Seq<(Seq<char>, ClassModel)>,
) -> Seq<(Seq<char>, ClassModel)>
    decreases others.len(),
{
    if others.len() == 0 {
        own
    } else {
        with_class(merged_classes(own, others.drop_last()), others.last().0, others.last().1)
    }
}

/// A schema after another was merged into it.
pub open spec fn merged(own: SchemaModel, other: SchemaModel) -> SchemaModel {
    SchemaModel {
        classes: merged_classes(own.classes, other.classes),
        enums: extended(own.enums, other.enums),
        bitfields: extended(own.bitfields, other.bitfields),
        aliases: extended(own.aliases, other.aliases),
        simple_types: extended(own.simple_types, other.simple_types),
    }
}

fn extend_names(own: &mut Vec<String>, others: Vec<String>)
    ensures
        entries::name_keys(final(own)@) == extended(
            entries::name_keys(old(own)@),
            entries::name_keys(others@),
        ),
{
    let ghost before = entries::name_keys(own@);
    let ghost all = entries::name_keys(others@);
    for name in iter: others.into_iter()
        invariant
            iter.seq() == others@,
            all == entries::name_keys(others@),
            entries::name_keys(own@) == extended(before, all.subrange(0, iter.index() as int)),
    {
        proof {
            let i = iter.index() as int;
            assert(all.subrange(0, i + 1).drop_last() =~= all.subrange(0, i));
            assert(all.subrange(0, i + 1).last() == (name@, ()));
        }
        add_name(own, name);
    }
    assert(all.subrange(0, all.len() as int) =~= all);
}

/// Sets entries of others, in order.
pub fn extend_entries<V: View>(own: &mut Vec<(String, V)>, others: Vec<(String, V)>)
    ensures
        entries::keyed(final(own)@) == extended(
            entries::keyed(old(own)@),
            entries::keyed(others@),
        ),
{
    let ghost before = entries::keyed(own@);
    let ghost all = entries::keyed(others@);
    for entry in iter: others.into_iter()
        invariant
            iter.seq() == others@,
            all == entries::keyed(others@),
            entries::keyed(own@) == extended(before, all.subrange(0, iter.index() as int)),
    {
        proof {
            let i = iter.index() as int;
            assert(all.subrange(0, i + 1).drop_last() =~= all.subrange(0, i));
            assert(all.subrange(0, i + 1).last() == (entry.0@, entry.1@));
        }
        let (name, value) = entry;
        set_value(own, name, value);
    }
    assert(all.subrange(0, all.len() as int) =~= all);
}

fn overlay(class: RedClass, incoming: RedClass) -> (result: RedClass)
    ensures
        result@ == overlaid(class@, incoming@),
{
    let mut properties: Vec<(String, RedProperty)> = class.properties;
    extend_entries(&mut properties, incoming.properties);
    RedClass {
        base: if incoming.base.is_some() {
            incoming.base
        } else {
            class.base
        },
        properties,
        flags: if incoming.flags.is_some() {
            incoming.flags
        } else {
            class.flags
        },
        size: if incoming.size.is_some() {
            incoming.size
        } else {
            class.size
        },
        alignment: if incoming.alignment.is_some() {
            incoming.alignment
        } else {
            class.alignment
        },
    }
}

impl RedSchema {
    /// Merges another schema into this one. Classes and properties that the
    /// other lacks stay; what the other states goes first.
    pub fn merge(&mut self, other: Self)
        ensures
            final(self)@ == merged(old(self)@, other@),
    {
        let ghost before = entries::keyed(self.classes@);
        let ghost all = entries::keyed(other.classes@);
        let mut classes: Vec<(String, RedClass)> = Vec::new();
        std::mem::swap(&mut classes, &mut self.classes);
        for entry in iter: other.classes.into_iter()
            invariant
                iter.seq() == other.classes@,
                all == entries::keyed(other.classes@),
                entries::keyed(classes@) == merged_classes(
                    before,
                    all.subrange(0, iter.index() as int),
                ),
        {
            proof {
                let i = iter.index() as int;
                assert(all.subrange(0, i + 1).drop_last() =~= all.subrange(0, i));
                assert(all.subrange(0, i + 1).last() == (entry.0@, entry.1@));
            }
            let ghost (key, laid) = (entry.0@, entry.1@);
            let (name, incoming) = entry;
            let ghost held = entries::keyed(classes@);
            match position(&classes, name.as_str()) {
                None => {
                    set_value(&mut classes, name, incoming);
                },
                Some(at) => {
                    let placeholder: RedClass = RedClass {
                        base: None,
                        properties: Vec::new(),
                        flags: None,
                        size: None,
                        alignment: None,
                    };
                    let ghost listed = classes@;
                    let spare: (String, RedClass) = (String::new(), placeholder);
                    let ghost kept = spare;
                    classes.push(spare);
                    let own: (String, RedClass) = classes.swap_remove(at);
                    assert(classes@ =~= listed.update(at as int, kept));
                    assert(held[at as int] == (listed[at as int].0@, listed[at as int].1@));
                    assert(own.1@ == held[at as int].1);
                    let class: RedClass = overlay(own.1, incoming);
                    let ghost added = (name@, class@);
                    classes.set(at, (name, class));
                    assert(entries::keyed(classes@) =~= held.update(at as int, added));
                    assert(entries::index_of(held, key) == Some(at as nat));
                },
            }
            assert(entries::keyed(classes@) == with_class(held, key, laid));
        }
        assert(all.subrange(0, all.len() as int) =~= all);
        self.classes = classes;
        extend_names(&mut self.enums, other.enums);
        extend_names(&mut self.bitfields, other.bitfields);
        extend_entries(&mut self.aliases, other.aliases);
        extend_names(&mut self.simple_types, other.simple_types);
    }

    /// The names of the classes, and the aliases that lead to one, in order.
    pub fn class_names(&self) -> (result: Vec<String>)
        ensures
            entries::name_keys(result@) == class_keys(self@.classes, self@.aliases),
    {
        let mut names: Vec<String> = Vec::new();
        let ghost classes = entries::keyed(self.classes@);
        let ghost aliases = entries::keyed(self.aliases@);
        assert(entries::name_keys(names@) =~= Seq::empty());
        let mut i: usize = 0;
        while i < self.classes.len()
            invariant
                i <= self.classes@.len(),
                classes == entries::keyed(self.classes@),
                entries::name_keys(names@) == own_keys(classes.subrange(0, i as int)),
            decreases self.classes@.len() - i,
        {
            proof {
                let next = classes.subrange(0, i + 1);
                assert(next.drop_last() =~= classes.subrange(0, i as int));
                assert(next.last().0 == self.classes@[i as int].0@);
            }
            add_name(&mut names, copy_text(self.classes[i].0.as_str()));
            i = i + 1;
        }
        assert(classes.subrange(0, i as int) =~= classes);
        let mut k: usize = 0;
        while k < self.aliases.len()
            invariant
                k <= self.aliases@.len(),
                classes == entries::keyed(self.classes@),
                aliases == entries::keyed(self.aliases@),
                entries::name_keys(names@) == with_aliases(
                    own_keys(classes),
                    classes,
                    aliases,
                    k as nat,
                ),
            decreases self.aliases@.len() - k,
        {
            let alias: &str = self.aliases[k].0.as_str();
            assert(aliases[k as int].0 == alias@);
            let target: String = self.alias_target(alias);
            if position(&self.classes, target.as_str()).is_some() {
                add_name(&mut names, copy_text(alias));
            }
            k = k + 1;
        }
        names
    }

    /// What an alias stands for in the end.
    fn alias_target(&self, alias: &str) -> (result: String)
        ensures
            result@ == alias_end(entries::keyed(self.aliases@), alias@, Seq::empty()),
    {
        let ghost aliases = entries::keyed(self.aliases@);
        let mut target: String = copy_text(alias);
        let mut visited: Vec<String> = Vec::new();
        let mut ended: bool = false;
        assert(texts(visited@) =~= Seq::empty());
        while !ended
            invariant
                aliases == entries::keyed(self.aliases@),
                ended ==> target@ == alias_end(aliases, alias@, Seq::empty()),
                !ended ==> alias_end(aliases, alias@, Seq::empty()) == alias_end(
                    aliases,
                    target@,
                    texts(visited@),
                ),
            decreases
                fresh(aliases, texts(visited@)) + (if ended {
                    0nat
                } else {
                    1nat
                }),
        {
            match position(&self.aliases, target.as_str()) {
                None => {
                    ended = true;
                },
                Some(at) => {
                    if among(&visited, target.as_str()) {
                        ended = true;
                    } else {
                        proof {
                            lemma_fresh(aliases, texts(visited@), target@);
                            assert(texts(visited@.push(target)) =~= texts(visited@).push(
                                target@,
                            ));
                        }
                        visited.push(target);
                        target = copy_text(self.aliases[at].1.as_str());
                    }
                },
            }
        }
        target
    }
}

/// The texts of strings.
pub open spec fn texts(strings: Seq<String>) -> Seq<Seq<char>> {
    strings.map_values(|text: String| text@)
}

/// Tells whether a text is among strings.
pub fn among(strings: &Vec<String>, text: &str) -> (result: bool)
    ensures
        result == texts(strings@).contains(text@),
{
    let mut i: usize = 0;
    while i < strings.len()
        invariant
            i <= strings@.len(),
            forall|k: int| 0 <= k < i ==> texts(strings@)[k] != text@,
        decreases strings@.len() - i,
    {
        assert(texts(strings@)[i as int] == strings@[i as int]@);
        if same_text(strings[i].as_str(), text) {
            return true;
        }
        i = i + 1;
    }
    false
}

/// The number of names that were not visited.
pub open spec fn fresh<V>(aliases: Seq<(Seq<char>, V)>, visited: Seq<Seq<char>>) -> nat
    decreases aliases.len(),
{
    if aliases.len() == 0 {
        0
    } else {
        fresh(aliases.drop_first(), visited) + (if visited.contains(aliases[0].0) {
            0nat
        } else {
            1nat
        })
    }
}

/// A visited name is no longer fresh.
pub proof fn lemma_fresh<V>(
    aliases: Seq<(Seq<char>, V)>,
    visited: Seq<Seq<char>>,
    target: Seq<char>,
)
    ensures
        fresh(aliases, visited.push(target)) <= fresh(aliases, visited),
        entries::find(aliases, target) is Some && !visited.contains(target) ==> fresh(
            aliases,
            visited.push(target),
        ) < fresh(aliases, visited),
    decreases aliases.len(),
{
    if aliases.len() > 0 {
        lemma_fresh(aliases.drop_first(), visited, target);
        let name = aliases[0].0;
        let more = visited.push(target);
        assert(more[visited.len() as int] == target);
        if visited.contains(name) {
            let i = choose|i: int| 0 <= i < visited.len() && visited[i] == name;
            assert(more[i] == name);
        }
    }
}

/// What an alias stands for in the end: the first name on its way that is no
/// alias or was met before.
pub open spec fn alias_end(
    aliases: Seq<(Seq<char>, Seq<char>)>,
    target: Seq<char>,
    visited: Seq<Seq<char>>,
) -> Seq<char>
    decreases fresh(aliases, visited),
{
    match entries::find(aliases, target) {
        None => target,
        Some(next) => if visited.contains(target) {
            target
        } else {
            proof {
                lemma_fresh(aliases, visited, target);
            }
            alias_end(aliases, next, visited.push(target))
        },
    }
}

/// The keys of classes.
pub open spec fn own_keys(classes: Seq<(Seq<char>, ClassModel)>) -> Seq<(Seq<char>, ())>
    decreases classes.len(),
{
    if classes.len() == 0 {
        Seq::empty()
    } else {
        entries::put(own_keys(classes.drop_last()), classes.last().0, ())
    }
}

/// Names, and those of the first `n` aliases that lead to a class.
pub open spec fn with_aliases(
    names: Seq<(Seq<char>, ())>,
    classes: Seq<(Seq<char>, ClassModel)>,
    aliases: Seq<(Seq<char>, Seq<char>)>,
    n: nat,
) -> Seq<(Seq<char>, ())>
    decreases n,
{
    if n == 0 {
        names
    } else {
        let before = with_aliases(names, classes, aliases, (n - 1) as nat);
        let alias = aliases[n - 1].0;
        if entries::find(classes, alias_end(aliases, alias, Seq::empty())) is Some {
            entries::put(before, alias, ())
        } else {
            before
        }
    }
}

/// The names of classes, and the aliases that lead to one.
pub open spec fn class_keys(
    classes: Seq<(Seq<char>, ClassModel)>,
    aliases: Seq<(Seq<char>, Seq<char>)>,
) -> Seq<(Seq<char>, ())> {
    with_aliases(own_keys(classes), classes, aliases, aliases.len())
}

/// A property in official metadata.
#[derive(Debug, PartialEq, Eq)]
pub struct RedmodProperty {
    pub name: String,
    pub red_type: String,
    pub offset: usize,
    pub flags: u64,
}

/// A class in official metadata.
#[derive(Debug, PartialEq, Eq)]
pub struct RedmodClass {
    pub name: String,
    pub parent: String,
    pub flags: u64,
    pub size: usize,
    pub alignment: usize,
    pub properties: Vec<RedmodProperty>,
}

/// Official metadata. Aliases stand in the order of their names.
#[derive(Debug, PartialEq, Eq)]
pub struct RedmodMetadata {
    pub simple_types: Vec<String>,
    pub classes: Vec<RedmodClass>,
    pub enums: Vec<String>,
    pub bitfields: Vec<String>,
    pub aliases: Vec<(String, String)>,
}

/// What a property in official metadata says.
pub open spec fn metadata_property(property: RedmodProperty) -> PropertyModel {
    PropertyModel {
        cs_type: property.red_type@,
        ordinal: None,
        red_type: Some(property.red_type@),
        offset: Some(property.offset),
        flags: Some(property.flags),
    }
}

/// The properties of a class in official metadata: of two of one name the
/// later.
pub open spec fn metadata_properties(properties: Seq<RedmodProperty>) -> Seq<
    (Seq<char>, PropertyModel),
>
    decreases properties.len(),
{
    if properties.len() == 0 {
        Seq::empty()
    } else {
        entries::put(
            metadata_properties(properties.drop_last()),
            properties.last().name@,
            metadata_property(properties.last()),
        )
    }
}

/// What a class in official metadata says.
pub open spec fn metadata_class(class: RedmodClass) -> ClassModel {
    ClassModel {
        base: if class.parent@.len() == 0 {
            None
        } else {
            Some(class.parent@)
        },
        properties: metadata_properties(class.properties@),
        flags: Some(class.flags),
        size: Some(class.size),
        alignment: Some(class.alignment),
    }
}

/// The classes of official metadata: of two of one name the later.
pub open spec fn metadata_classes(classes: Seq<RedmodClass>) -> Seq<(Seq<char>, ClassModel)>
    decreases classes.len(),
{
    if classes.len() == 0 {
        Seq::empty()
    } else {
        entries::put(
            metadata_classes(classes.drop_last()),
            classes.last().name@,
            metadata_class(classes.last()),
        )
    }
}

/// The schema of official metadata.
pub open spec fn metadata_schema(metadata: RedmodMetadata) -> SchemaModel {
    SchemaModel {
        classes: metadata_classes(metadata.classes@),
        enums: extended(Seq::empty(), entries::name_keys(metadata.enums@)),
        bitfields: extended(Seq::empty(), entries::name_keys(metadata.bitfields@)),
        aliases: extended(Seq::empty(), entries::keyed(metadata.aliases@)),
        simple_types: extended(Seq::empty(), entries::name_keys(metadata.simple_types@)),
    }
}

fn class_of(class: RedmodClass) -> (result: RedClass)
    ensures
        result@ == metadata_class(class),
{
    let mut properties: Vec<(String, RedProperty)> = Vec::new();
    let ghost all = class.properties@;
    assert(entries::keyed(properties@) =~= Seq::empty());
    let listed: Vec<RedmodProperty> = class.properties;
    for property in iter: listed.into_iter()
        invariant
            iter.seq() == all,
            entries::keyed(properties@) == metadata_properties(
                all.subrange(0, iter.index() as int),
            ),
    {
        proof {
            let i = iter.index() as int;
            assert(all.subrange(0, i + 1).drop_last() =~= all.subrange(0, i));
            assert(all.subrange(0, i + 1).last() == property);
        }
        let described: RedProperty = RedProperty {
            cs_type: copy_text(property.red_type.as_str()),
            ordinal: None,
            red_type: Some(property.red_type),
            offset: Some(property.offset),
            flags: Some(property.flags),
        };
        set_value(&mut properties, property.name, described);
    }
    assert(all.subrange(0, all.len() as int) =~= all);
    let orphan: bool = class.parent.as_str().as_bytes().len() == 0;
    proof {
        vstd::utf8::encode_utf8_decode_utf8(class.parent@);
    }
    RedClass {
        base: if orphan {
            None
        } else {
            Some(class.parent)
        },
        properties,
        flags: Some(class.flags),
        size: Some(class.size),
        alignment: Some(class.alignment),
    }
}

/// Makes a schema out of official metadata.
pub fn from_metadata(metadata: RedmodMetadata) -> (result: RedSchema)
    ensures
        result@ == metadata_schema(metadata),
{
    let mut schema: RedSchema = RedSchema::default();
    let ghost all = metadata.classes@;
    let mut classes: Vec<(String, RedClass)> = Vec::new();
    assert(entries::keyed(classes@) =~= Seq::empty());
    let listed: Vec<RedmodClass> = metadata.classes;
    for class in iter: listed.into_iter()
        invariant
            iter.seq() == all,
            entries::keyed(classes@) == metadata_classes(all.subrange(0, iter.index() as int)),
    {
        proof {
            let i = iter.index() as int;
            assert(all.subrange(0, i + 1).drop_last() =~= all.subrange(0, i));
            assert(all.subrange(0, i + 1).last() == class);
        }
        let name: String = copy_text(class.name.as_str());
        let described: RedClass = class_of(class);
        set_value(&mut classes, name, described);
    }
    assert(all.subrange(0, all.len() as int) =~= all);
    schema.classes = classes;
    extend_names(&mut schema.enums, metadata.enums);
    extend_names(&mut schema.bitfields, metadata.bitfields);
    extend_entries(&mut schema.aliases, metadata.aliases);
    extend_names(&mut schema.simple_types, metadata.simple_types);
    schema
}

proof fn lemma_with_class_find(
    own: Seq<(Seq<char>, ClassModel)>,
    name: Seq<char>,
    incoming: ClassModel,
    key: Seq<char>,
)
    requires
        entries::rising(own),
    ensures
        entries::rising(with_class(own, name, incoming)),
        key != name ==> entries::find(with_class(own, name, incoming), key) == entries::find(
            own,
            key,
        ),
        entries::find(with_class(own, name, incoming), name) == Some(
            match entries::find(own, name) {
                Some(class) => overlaid(class, incoming),
                None => incoming,
            },
        ),
{
    entries::lemma_index_of(own, name);
    match entries::index_of(own, name) {
        Some(i) => {
            let value = overlaid(own[i as int].1, incoming);
            assert forall|k: int| 0 <= k < i implies entries::text_less(
                #[trigger] own[k].0,
                name,
            ) by {
                assert(entries::text_less(own[k].0, own[i as int].0));
            }
            entries::lemma_irreflexive(name);
            entries::lemma_place_is(own, name, i);
            assert(with_class(own, name, incoming) == entries::put(own, name, value));
            entries::law_put_rising(own, name, value);
            entries::law_find_put(own, name, value);
            if key != name {
                entries::law_find_other(own, name, value, key);
            }
        },
        None => {
            entries::law_put_rising(own, name, incoming);
            entries::law_find_put(own, name, incoming);
            if key != name {
                entries::law_find_other(own, name, incoming, key);
            }
        },
    }
}

/// Merging keeps the classes that only the first schema has, brings in those
/// that only the other has, and lays the other's over the first's where both
/// have one.
pub proof fn law_merge_classes(
    own: Seq<(Seq<char>, ClassModel)>,
    others: Seq<(Seq<char>, ClassModel)>,
    name: Seq<char>,
)
    requires
        entries::rising(own),
        entries::rising(others),
    ensures
        entries::rising(merged_classes(own, others)),
        entries::find(merged_classes(own, others), name) == match (
            entries::find(own, name),
            entries::find(others, name),
        ) {
            (Some(class), Some(incoming)) => Some(overlaid(class, incoming)),
            (Some(class), None) => Some(class),
            (None, incoming) => incoming,
        },
    decreases others.len(),
{
    if others.len() > 0 {
        let front = others.drop_last();
        let (key, incoming) = others.last();
        assert(entries::rising(front)) by {
            assert forall|i: int, j: int| 0 <= i < j < front.len() implies #[trigger]
                entries::text_less(front[i].0, front[j].0) by {
                assert(entries::text_less(others[i].0, others[j].0));
            }
        }
        law_merge_classes(own, front, name);
        law_merge_classes(own, front, key);
        lemma_with_class_find(merged_classes(own, front), key, incoming, name);
        lemma_last_found(others, name);
    }
}

proof fn lemma_last_found<V>(others: Seq<(Seq<char>, V)>, name: Seq<char>)
    requires
        entries::rising(others),
        others.len() > 0,
    ensures
        entries::find(others, name) == (if others.last().0 == name {
            Some(others.last().1)
        } else {
            entries::find(others.drop_last(), name)
        }),
        others.last().0 == name ==> entries::find(others.drop_last(), name) is None,
{
    let front = others.drop_last();
    let last = others.len() - 1;
    let (key, value) = others.last();
    assert forall|i: int| 0 <= i < last implies entries::text_less(#[trigger] front[i].0, key) by {
        assert(entries::text_less(others[i].0, others[last].0));
    }
    entries::lemma_irreflexive(key);
    entries::lemma_place_is(front, key, last as nat);
    assert(entries::put(front, key, value) =~= others);
    assert forall|i: int, j: int| 0 <= i < j < front.len() implies #[trigger] entries::text_less(
        front[i].0,
        front[j].0,
    ) by {
        assert(entries::text_less(others[i].0, others[j].0));
    }
    entries::law_find_put(front, key, value);
    entries::lemma_find(front, key);
    if name != key {
        entries::law_find_other(front, key, value, name);
    }
    match entries::find(front, key) {
        Some(found) => {
            let i = choose|i: int| 0 <= i < front.len() && #[trigger] front[i] == (key, found);
            assert(entries::text_less(front[i].0, key));
        },
        None => {},
    }
}

} // verus!
