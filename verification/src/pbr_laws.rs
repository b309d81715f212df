//! Which records and which choices the baking of a material takes.

use crate::object_laws::said;
use crate::pbr;
use crate::pbr_layers;
use crate::value;
use vstd::prelude::*;

verus! {

/// Whether a record has a name.
pub open spec fn is_named(record: value::Model, name: Seq<char>) -> bool {
    value::member(record, "Name"@) == Some(said(name))
}

/// Whether a record is the last of its name.
#[verifier::opaque]
pub open spec fn last_named(records: Seq<value::Model>, at: nat, name: Seq<char>) -> bool {
    &&& at < records.len()
    &&& is_named(records[at as int], name)
    &&& forall|k: int| at < k < records.len() ==> !is_named(#[trigger] records[k], name)
}

proof fn lemma_record(records: Seq<value::Model>, name: Seq<char>, n: nat)
    requires
        n <= records.len(),
        forall|k: int| n <= k < records.len() ==> !is_named(#[trigger] records[k], name),
    ensures
        match pbr::record_of(records, name, n) {
            Some(at) => last_named(records, at, name),
            None => forall|k: int| 0 <= k < records.len() ==> !is_named(#[trigger] records[k], name),
        },
    decreases n,
{
    reveal(last_named);
    if n > 0 && !is_named(records[n - 1], name) {
        lemma_record(records, name, (n - 1) as nat);
    }
}

proof fn lemma_names(items: Seq<value::Model>, n: nat)
    requires
        n <= items.len(),
        pbr::names_of(items, n) is Ok,
    ensures
        pbr::names_of(items, n)->Ok_0.len() == n,
        forall|i: int|
            0 <= i < n ==> #[trigger] items[i] == said(pbr::names_of(items, n)->Ok_0[i]),
    decreases n,
{
    if n > 0 {
        lemma_names(items, (n - 1) as nat);
    }
}

/// Whether a record of a name is among some.
pub open spec fn is_found(records: Seq<value::Model>, found: Seq<nat>, name: Seq<char>) -> bool {
    exists|k: int| 0 <= k < found.len() && last_named(records, #[trigger] found[k], name)
}

/// Whether a record has one of the first `n` names.
pub open spec fn is_asked(
    names: Seq<Seq<char>>,
    records: Seq<value::Model>,
    n: nat,
    at: nat,
) -> bool {
    exists|i: int| 0 <= i < n && last_named(records, at, #[trigger] names[i])
}

/// Whether some records are the last ones of the first `n` of some names, each once.
pub open spec fn are_selected(
    names: Seq<Seq<char>>,
    records: Seq<value::Model>,
    n: nat,
    found: Seq<nat>,
) -> bool {
    &&& forall|i: int| 0 <= i < n ==> is_found(records, found, #[trigger] names[i])
    &&& forall|k: int| 0 <= k < found.len() ==> is_asked(names, records, n, #[trigger] found[k])
    &&& found.no_duplicates()
}

proof fn lemma_asked_more(
    names: Seq<Seq<char>>,
    records: Seq<value::Model>,
    n: nat,
    at: nat,
)
    requires
        is_asked(names, records, n, at),
    ensures
        is_asked(names, records, n + 1, at),
{
    let i = choose|i: int| 0 <= i < n && last_named(records, at, #[trigger] names[i]);
    assert(last_named(records, at, names[i]));
}

proof fn lemma_found_more(
    records: Seq<value::Model>,
    found: Seq<nat>,
    name: Seq<char>,
    at: nat,
)
    requires
        is_found(records, found, name),
    ensures
        is_found(records, found.push(at), name),
{
    let k = choose|k: int| 0 <= k < found.len() && last_named(records, #[trigger] found[k], name);
    assert(found.push(at)[k] == found[k]);
}

proof fn lemma_new(
    names: Seq<Seq<char>>,
    records: Seq<value::Model>,
    n: nat,
    found: Seq<nat>,
    at: nat,
)
    requires
        n < names.len(),
        are_selected(names, records, n, found),
        last_named(records, at, names[n as int]),
        forall|i: int| 0 <= i < n ==> #[trigger] names[i] != names[n as int],
    ensures
        are_selected(names, records, n + 1, found.push(at)),
{
    let after = found.push(at);
    assert forall|i: int| 0 <= i < n + 1 implies is_found(
        records,
        after,
        #[trigger] names[i],
    ) by {
        if i < n {
            lemma_found_more(records, found, names[i], at);
        } else {
            assert(after[found.len() as int] == at);
        }
    }
    assert forall|k: int| 0 <= k < after.len() implies is_asked(
        names,
        records,
        n + 1,
        #[trigger] after[k],
    ) by {
        if k < found.len() {
            assert(after[k] == found[k]);
            lemma_asked_more(names, records, n, found[k]);
        } else {
            assert(last_named(records, at, names[n as int]));
        }
    }
    assert forall|k: int| 0 <= k < found.len() implies #[trigger] found[k] != at by {
        assert(is_asked(names, records, n, found[k]));
        let i = choose|i: int| 0 <= i < n && last_named(records, found[k], #[trigger] names[i]);
        if found[k] == at {
            reveal(last_named);
            assert(is_named(records[at as int], names[i]));
            assert(is_named(records[at as int], names[n as int]));
        }
    }
}

proof fn lemma_selected(names: Seq<Seq<char>>, records: Seq<value::Model>, n: nat)
    requires
        n <= names.len(),
        pbr::selected(names, records, n) is Ok,
    ensures
        are_selected(names, records, n, pbr::selected(names, records, n)->Ok_0),
    decreases n,
{
    if n > 0 {
        let less = (n - 1) as nat;
        lemma_selected(names, records, less);
        let before = pbr::selected(names, records, less)->Ok_0;
        let name = names[n - 1];
        let part = names.subrange(0, n - 1);
        if part.contains(name) {
            let j = choose|j: int| 0 <= j < part.len() && part[j] == name;
            assert(names[j] == name);
            assert(is_found(records, before, names[j]));
            assert forall|k: int| 0 <= k < before.len() implies is_asked(
                names,
                records,
                n,
                #[trigger] before[k],
            ) by {
                lemma_asked_more(names, records, less, before[k]);
            }
        } else {
            lemma_record(records, name, records.len());
            assert forall|i: int| 0 <= i < less implies #[trigger] names[i] != name by {
                assert(part[i] == names[i]);
            }
            let at = pbr::record_of(records, name, records.len())->0;
            lemma_new(names, records, less, before, at);
        }
    }
}

/// A sidecar gives for an appearance the names that the appearance lists, and for each of
/// them the last record of that name, once.
pub proof fn law_selection(document: value::Model, appearance: Seq<char>) -> (r: (
    Seq<value::Model>,
    Seq<value::Model>,
))
    requires
        pbr::selection(document, appearance) is Ok,
    ensures
        ({
            let s = pbr::selection(document, appearance)->Ok_0;
            let (items, records) = r;
            &&& value::member(document, "MaterialRepo"@) == Some(said(s.repository))
            &&& value::member(document, "Appearances"@) matches Some(looks) && value::member(
                looks,
                appearance,
            ) == Some(value::Model::Array(items))
            &&& value::member(document, "Materials"@) == Some(value::Model::Array(records))
            &&& s.names.len() == items.len()
            &&& forall|i: int| 0 <= i < items.len() ==> #[trigger] items[i] == said(s.names[i])
            &&& are_selected(s.names, records, s.names.len(), s.records)
        }),
{
    let looks = value::member(document, "Appearances"@)->0;
    let items = value::member(looks, appearance)->0->Array_0;
    let records = value::member(document, "Materials"@)->0->Array_0;
    lemma_names(items, items.len());
    let names = pbr::names_of(items, items.len())->Ok_0;
    lemma_selected(names, records, names.len());
    (items, records)
}

/// A layer's own choice goes before that of its template, and without either there is
/// none.
pub proof fn law_choice(
    layer: value::Model,
    defaults: value::Model,
    key: Seq<char>,
    own: Seq<char>,
    common: Seq<char>,
)
    ensures
        value::member(layer, key) == Some(said(own)) ==> pbr_layers::choice(layer, defaults, key)
            == own,
        value::member(layer, key) is None && value::member(defaults, key) == Some(said(common))
            ==> pbr_layers::choice(layer, defaults, key) == common,
        value::member(layer, key) is None && value::member(defaults, key) is None
            ==> pbr_layers::choice(layer, defaults, key) == "null"@,
{
}

/// Whether an entry has another name.
pub open spec fn otherwise_named(entry: value::Model, name: Seq<char>) -> bool {
    match value::member(entry, "n"@) {
        Some(value::Model::Text(other)) => other != name,
        _ => false,
    }
}

proof fn lemma_entry(list: Seq<value::Model>, name: Seq<char>, from: nat, i: nat)
    requires
        from <= i < list.len(),
        value::member(list[i as int], "n"@) == Some(said(name)),
        forall|k: int|
            from <= k < i ==> otherwise_named(#[trigger] list[k], name),
    ensures
        pbr_layers::named_entry(list, name, from) == Some(list[i as int]),
    decreases i - from,
{
    if from < i {
        assert(otherwise_named(list[from as int], name));
        lemma_entry(list, name, from + 1, i);
    }
}

/// The numbers that a template gives for a choice are those of the first entry of that
/// name.
pub proof fn law_overridden(
    overrides: value::Model,
    kind: Seq<char>,
    selected: Seq<char>,
    list: Seq<value::Model>,
    i: nat,
    count: nat,
)
    requires
        value::member(overrides, kind) == Some(value::Model::Array(list)),
        i < list.len(),
        value::member(list[i as int], "n"@) == Some(said(selected)),
        forall|k: int|
            0 <= k < i ==> otherwise_named(#[trigger] list[k], selected),
    ensures
        pbr_layers::overridden(overrides, kind, selected, count) == (
        match pbr_layers::entry_numbers(list[i as int]) {
            Some(numbers) => if numbers.len() == count {
                Some(numbers)
            } else {
                None
            },
            None => None,
        }),
{
    lemma_entry(list, selected, 0, i);
}

} // verus!
