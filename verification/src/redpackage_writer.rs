//! Whole RED packages, written in the layout of a template.

use crate::binary;
use crate::binary::{write_u16, write_u32};
use crate::entries;
use crate::red_types::is_text;
use crate::redpackage;
use crate::redpackage::{malformed, u32_at, unsupported, PackageError};
use crate::redpackage_decoder;
use crate::redpackage_decoder::is_effect_table;
use crate::redpackage_encoder::Written;
use crate::redpackage_encoder;
use crate::redpackage_pools;
use crate::redpackage_pools::{entry_position, longer, Encoder, Source, State};
use crate::redpackage_reader;
use crate::redpackage_reader::{form_of, read_fields, Form, Package, Reader};
use crate::sequence::{append, part};
use crate::text::{chars_of, text_of};
use crate::value;
use crate::value::Value;
use vstd::prelude::*;

verus! {

/// Where the elements of an array in the template start and end at the latest,
/// behind those found, and where the last ends.
pub open spec fn spots(
    p: Package,
    inner: Seq<char>,
    cursor: nat,
    left: nat,
    limit: nat,
    found: Seq<(nat, nat)>,
) -> Result<(Seq<(nat, nat)>, nat), redpackage::Fault>
    decreases left,
{
    if left == 0 {
        Ok((found, cursor))
    } else {
        let last = redpackage_reader::value_limit(inner, cursor, limit);
        let reading = if redpackage_reader::shape(p.classes, inner) is Leaf {
            redpackage_reader::leaf(p, inner, cursor, last)
        } else {
            redpackage_decoder::value_at(p, inner, cursor, last)
        };
        match reading {
            Err(f) => Err(f),
            Ok((_, end)) => if end + 64 > usize::MAX {
                redpackage::fault(cursor, "array element bounds"@)
            } else {
                spots(p, inner, end, (left - 1) as nat, limit, found.push((cursor, last)))
            },
        }
    }
}

/// Bytes of the template.
pub open spec fn slice(bytes: Seq<u8>, from: nat, to: nat, reason: Seq<char>) -> Result<
    Seq<u8>,
    redpackage::Fault,
> {
    if from <= to <= bytes.len() {
        Ok(bytes.subrange(from as int, to as int))
    } else {
        redpackage::fault(from, reason)
    }
}

/// A value in place of one in the template.
pub open spec fn written_value(
    source: Source,
    state: State,
    t: Seq<char>,
    value: value::Model,
    path: Seq<nat>,
    start: nat,
    limit: nat,
) -> Written
    decreases value, 3nat, 0nat,
{
    if start + 64 > usize::MAX || limit + 64 > usize::MAX {
        redpackage::fault(start, "field bounds"@)
    } else {
        match redpackage_reader::shape(source.package.classes, t) {
            redpackage_reader::Shape::Leaf => redpackage_encoder::written_leaf(
                source,
                state,
                t,
                value,
                path,
                start,
                limit,
            ),
            redpackage_reader::Shape::Broken => Err(redpackage::Fault::Unsupported(t)),
            redpackage_reader::Shape::Array(inner) => written_array(
                source,
                state,
                inner,
                value,
                path,
                start,
                limit,
            ),
            redpackage_reader::Shape::Static(count, inner) => written_static(
                source,
                state,
                count,
                inner,
                value,
                path,
                start,
                limit,
            ),
            redpackage_reader::Shape::Class => match redpackage_decoder::class_at(
                source.package,
                t,
                start,
                limit,
            ) {
                Err(f) => Err(f),
                Ok((_, end)) => match written_class(source, state, t, value, path, start, end) {
                    Err(f) => Err(f),
                    Ok((bytes, after)) => Ok((bytes, end, after)),
                },
            },
        }
    }
}

/// An array behind its count.
pub open spec fn written_array(
    source: Source,
    state: State,
    inner: Seq<char>,
    value: value::Model,
    path: Seq<nat>,
    start: nat,
    limit: nat,
) -> Written
    decreases value, 2nat, 1nat,
{
    match value {
        value::Model::Array(items) => if items.len() > 0xffff_ffff {
            redpackage::fault(start, "array count"@)
        } else {
            match redpackage::number(source.package.bytes, start, 4) {
                Err(f) => Err(f),
                Ok(count) => match spots(
                    source.package,
                    inner,
                    start + 4,
                    count,
                    limit,
                    Seq::empty(),
                ) {
                    Err(f) => Err(f),
                    Ok((places, end)) => written_items(
                        source,
                        state,
                        inner,
                        items,
                        0,
                        path,
                        places,
                        end,
                        binary::le_bytes(items.len(), 4),
                    ),
                },
            }
        },
        _ => redpackage::fault(start, "array JSON"@),
    }
}

/// An array whose count is in its type.
pub open spec fn written_static(
    source: Source,
    state: State,
    count: nat,
    inner: Seq<char>,
    value: value::Model,
    path: Seq<nat>,
    start: nat,
    limit: nat,
) -> Written
    decreases value, 2nat, 1nat,
{
    match value {
        value::Model::Array(items) => if items.len() != count {
            Err(redpackage::Fault::Unsupported("static array count change"@))
        } else {
            match spots(source.package, inner, start, count, limit, Seq::empty()) {
                Err(f) => Err(f),
                Ok((places, end)) => written_items(
                    source,
                    state,
                    inner,
                    items,
                    0,
                    path,
                    places,
                    end,
                    Seq::empty(),
                ),
            }
        },
        _ => redpackage::fault(start, "static array JSON"@),
    }
}

/// Items of an array from index `i` on, behind the bytes written. Beyond the
/// elements of the template its last one is the model.
pub open spec fn written_items(
    source: Source,
    state: State,
    inner: Seq<char>,
    items: Seq<value::Model>,
    i: nat,
    path: Seq<nat>,
    places: Seq<(nat, nat)>,
    end: nat,
    bytes: Seq<u8>,
) -> Written
    decreases items, 4nat, items.len() - i,
{
    if i >= items.len() {
        Ok((bytes, end, state))
    } else if places.len() == 0 {
        Err(
            redpackage::Fault::Unsupported(
                "package array growth requires an existing element template"@,
            ),
        )
    } else {
        let place = if i < places.len() {
            places[i as int]
        } else {
            places.last()
        };
        match written_value(
            source,
            state,
            inner,
            items[i as int],
            path.push(i),
            place.0,
            place.1,
        ) {
            Err(f) => Err(f),
            Ok((more, _, after)) => written_items(
                source,
                after,
                inner,
                items,
                i + 1,
                path,
                places,
                end,
                bytes + more,
            ),
        }
    }
}

/// A class in place of one in the template.
pub open spec fn written_class(
    source: Source,
    state: State,
    class: Seq<char>,
    value: value::Model,
    path: Seq<nat>,
    start: nat,
    limit: nat,
) -> Result<(Seq<u8>, State), redpackage::Fault>
    decreases value, 2nat, 0nat,
{
    match value {
        value::Model::Object(_) => match redpackage_reader::fields_of(
            source.package.bytes,
            start,
        ) {
            Err(f) => Err(f),
            Ok(fields) => written_fields(
                source,
                state,
                class,
                value,
                path,
                fields,
                0,
                start,
                limit,
                Seq::empty(),
                Seq::empty(),
            ),
        },
        _ => redpackage::fault(start, "class JSON object"@),
    }
}

/// The fields of a class from index `i` on, behind the descriptors and the
/// values written.
pub open spec fn written_fields(
    source: Source,
    state: State,
    class: Seq<char>,
    value: value::Model,
    path: Seq<nat>,
    fields: Seq<(nat, nat, nat)>,
    i: nat,
    start: nat,
    limit: nat,
    descriptors: Seq<u8>,
    body: Seq<u8>,
) -> Result<(Seq<u8>, State), redpackage::Fault>
    decreases value, 1nat, fields.len() - i,
{
    let p = source.package;
    if i >= fields.len() {
        Ok((binary::le_bytes(fields.len(), 2) + descriptors + body, state))
    } else {
        let (name_index, type_index, place) = fields[i as int];
        let end = redpackage_reader::field_limit(fields, i, limit);
        let offset = 2 + 8 * fields.len() + body.len();
        let described = descriptors + binary::le_bytes(name_index, 2) + binary::le_bytes(
            type_index,
            2,
        ) + binary::le_bytes(offset, 4);
        if offset > 0xffff_ffff {
            redpackage::fault(start, "field offset"@)
        } else {
            match (
                redpackage_reader::name_of(p, name_index, place),
                redpackage_reader::name_of(p, type_index, place),
            ) {
                (Err(f), _) => Err(f),
                (_, Err(f)) => Err(f),
                (Ok(name), Ok(t)) => match member_position(value, name) {
                    None => match slice(p.bytes, place, end, "field template bounds"@) {
                        Err(f) => Err(f),
                        Ok(kept) => written_fields(
                            source,
                            state,
                            class,
                            value,
                            path,
                            fields,
                            i + 1,
                            start,
                            limit,
                            described,
                            body + kept,
                        ),
                    },
                    Some(k) => {
                        proof {
                            lemma_member(value, name);
                        }
                        let inner = value->Object_0[k as int].1;
                        let written = if class == "worldCompiledEffectInfo"@ && p.unknown1 == 2
                            && redpackage_decoder::effect_table(name) {
                            redpackage_encoder::written_effect(source, state, name, inner, place)
                        } else {
                            written_value(source, state, t, inner, path.push(k), place, end)
                        };
                        match written {
                            Err(f) => Err(f),
                            Ok((bytes, behind, after)) => {
                                let padding = if behind < end {
                                    slice(p.bytes, behind, end, "field padding"@)
                                } else {
                                    Ok(Seq::empty())
                                };
                                match padding {
                                    Err(f) => Err(f),
                                    Ok(padding) => written_fields(
                                        source,
                                        after,
                                        class,
                                        value,
                                        path,
                                        fields,
                                        i + 1,
                                        start,
                                        limit,
                                        described,
                                        body + bytes + padding,
                                    ),
                                }
                            },
                        }
                    },
                },
            }
        }
    }
}

/// Where an object has a key.
pub open spec fn member_position(value: value::Model, key: Seq<char>) -> Option<nat> {
    match value {
        value::Model::Object(entries) => entries::index_of(entries, key),
        _ => None,
    }
}

/// What an object has under a key is a part of it.
pub proof fn lemma_member(value: value::Model, key: Seq<char>)
    ensures
        member_position(value, key) matches Some(k) ==> value is Object && k
            < value->Object_0.len() && decreases_to!(value => value->Object_0[k as int].1),
{
    match value {
        value::Model::Object(entries) => {
            entries::lemma_index_of(entries, key);
            match entries::index_of(entries, key) {
                Some(k) => {
                    assert(decreases_to!(value => value->Object_0));
                    assert(decreases_to!(entries => entries[k as int]));
                    assert(decreases_to!(entries[k as int] => entries[k as int].1));
                },
                None => {},
            }
        },
        _ => {},
    }
}

/// Numbers of places.
pub open spec fn place_numbers(places: Seq<(usize, usize)>) -> Seq<(nat, nat)> {
    places.map_values(|p: (usize, usize)| (p.0 as nat, p.1 as nat))
}

impl<'a> Reader<'a> {
    #[verifier::loop_isolation(false)]
    fn element_spots(&self, inner: &[char], from: usize, count: usize, limit: usize) -> (result: Result<
        (Vec<(usize, usize)>, usize),
        PackageError,
    >)
        requires
            self.bytes@.len() + 64 <= usize::MAX,
            limit + 64 <= usize::MAX,
            from + 64 <= usize::MAX,
        ensures
            match spots(
                self@,
                inner@,
                from as nat,
                count as nat,
                limit as nat,
                Seq::empty(),
            ) {
                Ok((places, end)) => result matches Ok(r) && place_numbers(r.0@) == places && r.1
                    == end,
                Err(f) => result matches Err(e) && e@ == f,
            },
    {
        let ghost wanted = spots(
            self@,
            inner@,
            from as nat,
            count as nat,
            limit as nat,
            Seq::empty(),
        );
        let leaf: bool = match form_of(self.classes, inner) {
            Form::Leaf => true,
            _ => false,
        };
        let mut places: Vec<(usize, usize)> = Vec::new();
        let mut cursor: usize = from;
        let mut left: usize = count;
        assert(place_numbers(places@) =~= Seq::empty());
        while left > 0
            invariant
                cursor + 64 <= usize::MAX,
                wanted == spots(
                    self@,
                    inner@,
                    cursor as nat,
                    left as nat,
                    limit as nat,
                    place_numbers(places@),
                ),
            decreases left,
        {
            let last: usize = self.limit_of(inner, cursor, limit);
            let reading: Result<(Value, usize), PackageError> = if leaf {
                self.read_leaf(inner, cursor, last)
            } else {
                self.read_value(inner, cursor, last)
            };
            let end: usize = match reading {
                Ok((_, end)) => end,
                Err(error) => return Err(error),
            };
            if end > usize::MAX - 64 {
                return Err(malformed(cursor, "array element bounds"));
            }
            let place: (usize, usize) = (cursor, last);
            assert(place_numbers(places@.push(place)) =~= place_numbers(places@).push(
                (cursor as nat, last as nat),
            ));
            places.push(place);
            cursor = end;
            left = left - 1;
        }
        Ok((places, cursor))
    }
}

/// Bytes of the template.
pub fn template_slice<'b>(bytes: &'b [u8], from: usize, to: usize, reason: &'static str) -> (result: Result<
    &'b [u8],
    PackageError,
>)
    ensures
        match slice(bytes@, from as nat, to as nat, reason@) {
            Ok(kept) => result matches Ok(r) && r@ == kept,
            Err(f) => result matches Err(e) && e@ == f,
        },
{
    if from <= to && to <= bytes.len() {
        Ok(part(bytes, from, to))
    } else {
        Err(malformed(from, reason))
    }
}

impl<'a> Encoder<'a> {
    #[verifier::spinoff_prover]
    #[verifier::rlimit(60)]
    fn encode_value(
        &mut self,
        t: &[char],
        value: &'a Value,
        path: &Vec<usize>,
        start: usize,
        limit: usize,
    ) -> (result: Result<(Vec<u8>, usize), PackageError>)
        requires
            old(self).reader.bytes@.len() + 64 <= usize::MAX,
        ensures
            final(self).source() == old(self).source(),
            final(self).reader == old(self).reader,
            match written_value(
                old(self).source(),
                old(self)@,
                t@,
                value@,
                redpackage_pools::numbers(path@),
                start as nat,
                limit as nat,
            ) {
                Ok((bytes, end, state)) => result matches Ok(r) && r.0@ == bytes && r.1 == end
                    && final(self)@ == state,
                Err(f) => result matches Err(e) && e@ == f,
            },
        decreases value, 3nat, 0nat,
    {
        if start > usize::MAX - 64 || limit > usize::MAX - 64 {
            return Err(malformed(start, "field bounds"));
        }
        match form_of(self.reader.classes, t) {
            Form::Leaf => self.encode_leaf(t, value, path, start, limit),
            Form::Broken => Err(unsupported(text_of(t).as_str())),
            Form::Array(inner) => self.encode_array(inner, value, path, start, limit),
            Form::Static(count, inner) => self.encode_static(
                count,
                inner,
                value,
                path,
                start,
                limit,
            ),
            Form::Class => {
                let end: usize = match self.reader.read_class(t, start, limit) {
                    Ok((_, end)) => end,
                    Err(error) => return Err(error),
                };
                match self.encode_class(t, value, path, start, end) {
                    Ok(bytes) => Ok((bytes, end)),
                    Err(error) => Err(error),
                }
            },
        }
    }

    fn encode_array(
        &mut self,
        inner: &[char],
        value: &'a Value,
        path: &Vec<usize>,
        start: usize,
        limit: usize,
    ) -> (result: Result<(Vec<u8>, usize), PackageError>)
        requires
            old(self).reader.bytes@.len() + 64 <= usize::MAX,
            start + 64 <= usize::MAX,
            limit + 64 <= usize::MAX,
        ensures
            final(self).source() == old(self).source(),
            final(self).reader == old(self).reader,
            match written_array(
                old(self).source(),
                old(self)@,
                inner@,
                value@,
                redpackage_pools::numbers(path@),
                start as nat,
                limit as nat,
            ) {
                Ok((bytes, end, state)) => result matches Ok(r) && r.0@ == bytes && r.1 == end
                    && final(self)@ == state,
                Err(f) => result matches Err(e) && e@ == f,
            },
        decreases value, 2nat, 1nat,
    {
        let items: &'a Vec<Value> = match value {
            Value::Array(items) => items,
            _ => return Err(malformed(start, "array JSON")),
        };
        proof {
            value::lemma_models(items@);
            assert(decreases_to!(value => value->Array_0));
        }
        if items.len() as u64 > 0xffff_ffff {
            return Err(malformed(start, "array count"));
        }
        let count: u32 = match u32_at(self.reader.bytes, start) {
            Ok(count) => count,
            Err(error) => return Err(error),
        };
        let (places, end): (Vec<(usize, usize)>, usize) = match self.reader.element_spots(
            inner,
            start + 4,
            count as usize,
            limit,
        ) {
            Ok(found) => found,
            Err(error) => return Err(error),
        };
        let mut output: Vec<u8> = Vec::new();
        write_u32(&mut output, items.len() as u32);
        assert(output@ =~= binary::le_bytes(items@.len(), 4));
        match self.encode_items(inner, items, path, &places, end, output) {
            Ok(bytes) => Ok((bytes, end)),
            Err(error) => Err(error),
        }
    }

    fn encode_static(
        &mut self,
        count: usize,
        inner: &[char],
        value: &'a Value,
        path: &Vec<usize>,
        start: usize,
        limit: usize,
    ) -> (result: Result<(Vec<u8>, usize), PackageError>)
        requires
            old(self).reader.bytes@.len() + 64 <= usize::MAX,
            start + 64 <= usize::MAX,
            limit + 64 <= usize::MAX,
        ensures
            final(self).source() == old(self).source(),
            final(self).reader == old(self).reader,
            match written_static(
                old(self).source(),
                old(self)@,
                count as nat,
                inner@,
                value@,
                redpackage_pools::numbers(path@),
                start as nat,
                limit as nat,
            ) {
                Ok((bytes, end, state)) => result matches Ok(r) && r.0@ == bytes && r.1 == end
                    && final(self)@ == state,
                Err(f) => result matches Err(e) && e@ == f,
            },
        decreases value, 2nat, 1nat,
    {
        let items: &'a Vec<Value> = match value {
            Value::Array(items) => items,
            _ => return Err(malformed(start, "static array JSON")),
        };
        proof {
            value::lemma_models(items@);
            assert(decreases_to!(value => value->Array_0));
        }
        if items.len() != count {
            return Err(unsupported("static array count change"));
        }
        let (places, end): (Vec<(usize, usize)>, usize) = match self.reader.element_spots(
            inner,
            start,
            count,
            limit,
        ) {
            Ok(found) => found,
            Err(error) => return Err(error),
        };
        match self.encode_items(inner, items, path, &places, end, Vec::new()) {
            Ok(bytes) => Ok((bytes, end)),
            Err(error) => Err(error),
        }
    }

    fn encode_items(
        &mut self,
        inner: &[char],
        items: &'a Vec<Value>,
        path: &Vec<usize>,
        places: &Vec<(usize, usize)>,
        end: usize,
        written: Vec<u8>,
    ) -> (result: Result<Vec<u8>, PackageError>)
        requires
            old(self).reader.bytes@.len() + 64 <= usize::MAX,
        ensures
            final(self).source() == old(self).source(),
            final(self).reader == old(self).reader,
            match written_items(
                old(self).source(),
                old(self)@,
                inner@,
                value::models(items@),
                0,
                redpackage_pools::numbers(path@),
                place_numbers(places@),
                end as nat,
                written@,
            ) {
                Ok((bytes, last, state)) => result matches Ok(r) && r@ == bytes && last == end
                    && final(self)@ == state,
                Err(f) => result matches Err(e) && e@ == f,
            },
        decreases items, 4nat, 0nat,
    {
        let ghost all = value::models(items@);
        let ghost spots = place_numbers(places@);
        let ghost trail = redpackage_pools::numbers(path@);
        let ghost wanted = written_items(
            self.source(),
            self@,
            inner@,
            all,
            0,
            trail,
            spots,
            end as nat,
            written@,
        );
        proof {
            value::lemma_models(items@);
        }
        let mut output: Vec<u8> = written;
        let mut i: usize = 0;
        while i < items.len()
            invariant
                i <= items@.len(),
                all == value::models(items@),
                all.len() == items@.len(),
                forall|k: int|
                    0 <= k < items@.len() ==> #[trigger] all[k] == value::model(items@[k]),
                spots == place_numbers(places@),
                trail == redpackage_pools::numbers(path@),
                self.reader.bytes@.len() + 64 <= usize::MAX,
                self.source() == old(self).source(),
                self.reader == old(self).reader,
                wanted == written_items(
                    old(self).source(),
                    old(self)@,
                    inner@,
                    all,
                    0,
                    trail,
                    spots,
                    end as nat,
                    written@,
                ),
                wanted == written_items(
                    self.source(),
                    self@,
                    inner@,
                    all,
                    i as nat,
                    trail,
                    spots,
                    end as nat,
                    output@,
                ),
            decreases items@.len() - i,
        {
            if places.len() == 0 {
                return Err(
                    unsupported("package array growth requires an existing element template"),
                );
            }
            proof {
                assert(all[i as int] == value::model(items@[i as int]));
                assert(decreases_to!(items => items@));
                assert(decreases_to!(items@ => items@[i as int]));
            }
            let at: usize = if i < places.len() {
                i
            } else {
                places.len() - 1
            };
            let (from, to): (usize, usize) = places[at];
            assert(spots[at as int] == (from as nat, to as nat));
            let place: Vec<usize> = longer(path, i);
            let bytes: Vec<u8> = match self.encode_value(inner, &items[i], &place, from, to) {
                Ok((bytes, _)) => bytes,
                Err(error) => return Err(error),
            };
            append(&mut output, &bytes);
            i = i + 1;
        }
        Ok(output)
    }

    fn encode_field(
        &mut self,
        class: &[char],
        name: &[char],
        t: &[char],
        value: &'a Value,
        path: &Vec<usize>,
        start: usize,
        limit: usize,
    ) -> (result: Result<(Vec<u8>, usize), PackageError>)
        requires
            old(self).reader.bytes@.len() + 64 <= usize::MAX,
        ensures
            final(self).source() == old(self).source(),
            final(self).reader == old(self).reader,
            match (if class@ == "worldCompiledEffectInfo"@ && old(self).source().package.unknown1
                == 2 && redpackage_decoder::effect_table(name@) {
                redpackage_encoder::written_effect(
                    old(self).source(),
                    old(self)@,
                    name@,
                    value@,
                    start as nat,
                )
            } else {
                written_value(
                    old(self).source(),
                    old(self)@,
                    t@,
                    value@,
                    redpackage_pools::numbers(path@),
                    start as nat,
                    limit as nat,
                )
            }) {
                Ok((bytes, end, state)) => result matches Ok(r) && r.0@ == bytes && r.1 == end
                    && final(self)@ == state,
                Err(f) => result matches Err(e) && e@ == f,
            },
        decreases value, 4nat, 0nat,
    {
        if is_text(class, "worldCompiledEffectInfo") && self.reader.unknown1 == 2
            && is_effect_table(name) {
            self.encode_compiled_effect_property(value, name, start)
        } else {
            self.encode_value(t, value, path, start, limit)
        }
    }

    /// Writes a class.
    pub fn encode_class(
        &mut self,
        class: &[char],
        value: &'a Value,
        path: &Vec<usize>,
        start: usize,
        limit: usize,
    ) -> (result: Result<Vec<u8>, PackageError>)
        requires
            old(self).reader.bytes@.len() + 64 <= usize::MAX,
        ensures
            final(self).source() == old(self).source(),
            final(self).reader == old(self).reader,
            match written_class(
                old(self).source(),
                old(self)@,
                class@,
                value@,
                redpackage_pools::numbers(path@),
                start as nat,
                limit as nat,
            ) {
                Ok((bytes, state)) => result matches Ok(r) && r@ == bytes && final(self)@ == state,
                Err(f) => result matches Err(e) && e@ == f,
            },
        decreases value, 2nat, 0nat,
    {
        let entries: &'a Vec<(String, Value)> = match value {
            Value::Object(entries) => entries,
            _ => return Err(malformed(start, "class JSON object")),
        };
        let template: &'a [u8] = self.reader.bytes;
        let fields: Vec<(u16, u16, usize)> = match read_fields(template, start) {
            Ok(fields) => fields,
            Err(error) => return Err(error),
        };
        let ghost numbers = redpackage_reader::field_numbers(fields@);
        let ghost trail = redpackage_pools::numbers(path@);
        let ghost wanted = written_class(
            self.source(),
            self@,
            class@,
            value@,
            trail,
            start as nat,
            limit as nat,
        );
        let mut descriptors: Vec<u8> = Vec::new();
        let mut body: Vec<u8> = Vec::new();
        let head: usize = 2 + 8 * fields.len();
        let mut i: usize = 0;
        while i < fields.len()
            invariant
                i <= fields@.len(),
                fields@.len() <= 0xffff,
                head == 2 + 8 * fields@.len(),
                *value == Value::Object(*entries),
                numbers == redpackage_reader::field_numbers(fields@),
                trail == redpackage_pools::numbers(path@),
                self.reader.bytes@.len() + 64 <= usize::MAX,
                template == self.reader.bytes,
                self.source() == old(self).source(),
                self.reader == old(self).reader,
                wanted == written_class(
                    old(self).source(),
                    old(self)@,
                    class@,
                    value@,
                    trail,
                    start as nat,
                    limit as nat,
                ),
                wanted == written_fields(
                    self.source(),
                    self@,
                    class@,
                    value@,
                    trail,
                    numbers,
                    i as nat,
                    start as nat,
                    limit as nat,
                    descriptors@,
                    body@,
                ),
            decreases fields@.len() - i,
        {
            let (name_index, type_index, place): (u16, u16, usize) = fields[i];
            assert(numbers[i as int] == (name_index as nat, type_index as nat, place as nat));
            let end: usize = if i + 1 < fields.len() {
                assert(numbers[i + 1] == (
                    fields@[i + 1].0 as nat,
                    fields@[i + 1].1 as nat,
                    fields@[i + 1].2 as nat,
                ));
                fields[i + 1].2
            } else {
                limit
            };
            assert(end == redpackage_reader::field_limit(numbers, i as nat, limit as nat));
            if body.len() as u64 > 0xffff_ffff - head as u64 {
                return Err(malformed(start, "field offset"));
            }
            let offset: u32 = (head as u64 + body.len() as u64) as u32;
            let name: &str = match self.reader.name(name_index as usize, place) {
                Ok(name) => name,
                Err(error) => return Err(error),
            };
            let red_type: &str = match self.reader.name(type_index as usize, place) {
                Ok(name) => name,
                Err(error) => return Err(error),
            };
            write_u16(&mut descriptors, name_index);
            write_u16(&mut descriptors, type_index);
            write_u32(&mut descriptors, offset);
            match entry_position(entries, name) {
                None => {
                    let kept: &[u8] = match template_slice(
                        template,
                        place,
                        end,
                        "field template bounds",
                    ) {
                        Ok(kept) => kept,
                        Err(error) => return Err(error),
                    };
                    append(&mut body, kept);
                },
                Some(k) => {
                    proof {
                        value::lemma_entry_models(entries@);
                        assert(decreases_to!(value => value->Object_0));
                        assert(decreases_to!(entries => entries@));
                        assert(decreases_to!(entries@ => entries@[k as int]));
                        assert(decreases_to!(entries@[k as int] => entries@[k as int].1));
                    }
                    let name_chars: Vec<char> = chars_of(name);
                    let type_chars: Vec<char> = chars_of(red_type);
                    let step: Vec<usize> = longer(path, k);
                    let (bytes, behind): (Vec<u8>, usize) = match self.encode_field(
                        class,
                        &name_chars,
                        &type_chars,
                        &entries[k].1,
                        &step,
                        place,
                        end,
                    ) {
                        Ok(written) => written,
                        Err(error) => return Err(error),
                    };
                    let ghost held = body@;
                    append(&mut body, &bytes);
                    if behind < end {
                        let padding: &[u8] = match template_slice(
                            template,
                            behind,
                            end,
                            "field padding",
                        ) {
                            Ok(padding) => padding,
                            Err(error) => return Err(error),
                        };
                        append(&mut body, padding);
                    } else {
                        assert(body@ =~= held + bytes@ + Seq::empty());
                    }
                },
            }
            i = i + 1;
        }
        let mut output: Vec<u8> = Vec::new();
        write_u16(&mut output, fields.len() as u16);
        append(&mut output, &descriptors);
        append(&mut output, &body);
        assert(output@ =~= binary::le_bytes(numbers.len(), 2) + descriptors@ + body@);
        Ok(output)
    }
}

} // verus!
