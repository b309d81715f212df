//! Classes read out of their C# declarations.

use crate::entries;
use crate::entries::{position, set_value};
use crate::number_text;
use crate::number_text::parse_unsigned;
use crate::schema;
use crate::schema::{extend_entries, ClassModel, PropertyModel, RedClass, RedProperty};
use crate::text;
use crate::text::{chars_of, is_whitespace, text_of};
use crate::value::copy_text;
use vstd::prelude::*;

verus! {

/// How a class is declared. The groups are its name and what it is derived
/// from.
pub const CLASS_EXPRESSION: &'static str = r"(?m)\b(?:partial\s+)?class\s+(?P<name>[A-Za-z0-9_]+)\s*(?::\s*(?P<base>[A-Za-z0-9_]+))?";

/// How another name of a class stands before it. The group is that name.
pub const ALIAS_EXPRESSION: &'static str = r#"\[RED\("(?P<alias>[^"]+)"\)\]\s*(?:public\s+)?$"#;

/// How a property is declared. The groups are its place, its name and its
/// type.
pub const PROPERTY_EXPRESSION: &'static str = r#"(?s)(?:\[Ordinal\((?P<ordinal>\d+)\)\]\s*)?\[RED\("(?P<red>[^"]+)"[^\]]*\)\]\s*public\s+(?P<type>[A-Za-z0-9_<>,\s]+?)\s+[A-Za-z0-9_]+\s*\{"#;

/// How many bytes before a class are searched for another name.
pub const ALIAS_ROOM: usize = 256;

/// An expression that does not compile.
#[derive(Debug, Clone, Copy, PartialEq, Eq)]
pub struct BadExpression {
    pub expression: &'static str,
}

/// A match of an expression: the text before it, and the texts of its groups,
/// of which the first is the whole match.
#[derive(Debug)]
pub struct Match {
    pub before: String,
    pub groups: Vec<Option<String>>,
}

/// What a match holds.
pub ghost struct MatchModel {
    pub before: Seq<char>,
    pub groups: Seq<Option<Seq<char>>>,
}

impl View for Match {
    type V = MatchModel;

    open spec fn view(&self) -> MatchModel {
        MatchModel {
            before: self.before@,
            groups: self.groups@.map_values(|group: Option<String>| schema::optional_text(group)),
        }
    }
}

/// What matches hold.
pub open spec fn match_models(list: Seq<Match>) -> Seq<MatchModel> {
    list.map_values(|found: Match| found@)
}

/// The matches of an expression in a text, one behind the other, where the
/// expression compiles.
pub uninterp spec fn matches_in(expression: Seq<char>, text: Seq<char>) -> Option<Seq<MatchModel>>;

/// The expressions that sources are searched for.
pub open spec fn is_known(expression: Seq<char>) -> bool {
    expression == CLASS_EXPRESSION@ || expression == ALIAS_EXPRESSION@ || expression
        == PROPERTY_EXPRESSION@
}

/// Calls `regex::Regex::new` and `regex::Regex::captures_iter`, for one of the
/// expressions that sources are searched for: these are small, so that no limit on
/// the size of an expression plays a part. What the calls give depends on the
/// expression and the text alone and is named [`matches_in`]; what an expression
/// matches is not spelled out.
#[verifier::external_body]
fn find_matches(expression: &str, text: &str) -> (result: Option<Vec<Match>>)
    requires
        is_known(expression@),
    ensures
        match matches_in(expression@, text@) {
            Some(list) => result matches Some(r) && match_models(r@) == list,
            None => result is None,
        },
{
    let expression = regex::Regex::new(expression).ok()?;
    let texts = |found: regex::Captures<'_>| Match {
        before: text[..found.get(0).map_or(0, |whole| whole.start())].to_owned(),
        groups: found.iter().map(|group| group.map(|part| part.as_str().to_owned())).collect(),
    };
    Some(expression.captures_iter(text).map(texts).collect())
}

/// The text of a group, which is empty where the group took no part.
pub open spec fn group_of(found: MatchModel, i: nat) -> Seq<char> {
    match optional_group(found, i) {
        Some(text) => text,
        None => Seq::empty(),
    }
}

/// The text of a group that may have taken no part.
pub open spec fn optional_group(found: MatchModel, i: nat) -> Option<Seq<char>> {
    if i < found.groups.len() {
        found.groups[i as int]
    } else {
        None
    }
}

/// How many bytes a character takes.
pub open spec fn width(c: char) -> nat {
    let code = c as int;
    if code < 0x80 {
        1
    } else if code < 0x800 {
        2
    } else if code < 0x1_0000 {
        3
    } else {
        4
    }
}

/// As much of the end of a text as takes no more than some bytes.
pub open spec fn last_part(text: Seq<char>, room: nat) -> Seq<char>
    decreases text.len(),
{
    if text.len() == 0 || width(text.last()) > room {
        Seq::empty()
    } else {
        last_part(text.drop_last(), (room - width(text.last())) as nat).push(text.last())
    }
}

/// The words of the first `n` characters with single spaces between them, and
/// whether white space came last.
pub open spec fn words(text: Seq<char>, n: nat) -> (Seq<char>, bool)
    decreases n,
{
    if n == 0 {
        (Seq::empty(), false)
    } else {
        let (out, gap) = words(text, (n - 1) as nat);
        let c = text[n - 1];
        if text::is_blank(c) {
            (out, true)
        } else if gap && out.len() > 0 {
            (out.push(' ').push(c), false)
        } else {
            (out.push(c), false)
        }
    }
}

/// The place of a property, where it is a number that fits.
pub open spec fn place_of(text: Option<Seq<char>>) -> Option<u32> {
    match text {
        None => None,
        Some(digits) => match number_text::unsigned_value(digits, u32::MAX as nat) {
            Some(value) => Some(value as u32),
            None => None,
        },
    }
}

/// A property as declared.
pub open spec fn declared_property(found: MatchModel) -> PropertyModel {
    let kind = group_of(found, 3);
    PropertyModel {
        cs_type: words(kind, kind.len()).0,
        ordinal: place_of(optional_group(found, 1)),
        red_type: None,
        offset: None,
        flags: None,
    }
}

/// The properties that the first `n` matches declare: of two of one name the
/// later.
pub open spec fn declared_properties(list: Seq<MatchModel>, n: nat) -> Seq<
    (Seq<char>, PropertyModel),
>
    decreases n,
{
    if n == 0 {
        Seq::empty()
    } else {
        entries::put(
            declared_properties(list, (n - 1) as nat),
            group_of(list[n - 1], 2),
            declared_property(list[n - 1]),
        )
    }
}

/// The class that a source declares first, if it declares one: under its other
/// name, where one stands before it, and with all properties of the source.
pub open spec fn declared_class(text: Seq<char>) -> Result<
    Option<(Seq<char>, ClassModel)>,
    BadExpression,
> {
    match matches_in(CLASS_EXPRESSION@, text) {
        None => Err(BadExpression { expression: CLASS_EXPRESSION }),
        Some(classes) => if classes.len() == 0 {
            Ok(None)
        } else {
            match matches_in(ALIAS_EXPRESSION@, last_part(classes[0].before, ALIAS_ROOM as nat)) {
                None => Err(BadExpression { expression: ALIAS_EXPRESSION }),
                Some(aliases) => match matches_in(PROPERTY_EXPRESSION@, text) {
                    None => Err(BadExpression { expression: PROPERTY_EXPRESSION }),
                    Some(properties) => Ok(
                        Some(
                            (
                                if aliases.len() == 0 {
                                    group_of(classes[0], 1)
                                } else {
                                    group_of(aliases[0], 1)
                                },
                                ClassModel {
                                    base: optional_group(classes[0], 2),
                                    properties: declared_properties(properties, properties.len()),
                                    flags: None,
                                    size: None,
                                    alignment: None,
                                },
                            ),
                        ),
                    ),
                },
            }
        },
    }
}

/// A class after another part of it was read: it keeps what it is derived
/// from, and the properties of the part go first.
pub open spec fn completed(own: ClassModel, part: ClassModel) -> ClassModel {
    ClassModel {
        base: if own.base is None {
            part.base
        } else {
            own.base
        },
        properties: schema::extended(own.properties, part.properties),
        flags: own.flags,
        size: own.size,
        alignment: own.alignment,
    }
}

/// Classes after one was read.
pub open spec fn with_declared(
    own: Seq<(Seq<char>, ClassModel)>,
    name: Seq<char>,
    class: ClassModel,
) -> Seq<(Seq<char>, ClassModel)> {
    match entries::index_of(own, name) {
        Some(i) => own.update(i as int, (name, completed(own[i as int].1, class))),
        None => entries::put(own, name, class),
    }
}

fn width_of(c: char) -> (result: usize)
    ensures
        result == width(c),
{
    let code: u32 = c as u32;
    if code < 0x80 {
        1
    } else if code < 0x800 {
        2
    } else if code < 0x1_0000 {
        3
    } else {
        4
    }
}

fn take_last_part(text: &str, room: usize) -> (result: String)
    ensures
        result@ == last_part(text@, room as nat),
{
    let chars: Vec<char> = chars_of(text);
    let mut from: usize = chars.len();
    let mut left: usize = room;
    assert(chars@.subrange(0, from as int) =~= chars@);
    assert(chars@.subrange(from as int, chars@.len() as int) =~= Seq::<char>::empty());
    while from > 0 && width_of(chars[from - 1]) <= left
        invariant
            from <= chars@.len(),
            chars@ == text@,
            last_part(text@, room as nat) == last_part(
                chars@.subrange(0, from as int),
                left as nat,
            ) + chars@.subrange(from as int, chars@.len() as int),
        decreases from,
    {
        let ghost head = chars@.subrange(0, from as int);
        let ghost tail = chars@.subrange(from as int, chars@.len() as int);
        let wide: usize = width_of(chars[from - 1]);
        proof {
            assert(head.drop_last() =~= chars@.subrange(0, from - 1));
            assert(head.last() == chars@[from - 1]);
            assert(chars@.subrange(from - 1, chars@.len() as int) =~= seq![chars@[from - 1]]
                + tail);
            assert(last_part(head, left as nat) + tail =~= last_part(
                head.drop_last(),
                (left - wide) as nat,
            ) + (seq![chars@[from - 1]] + tail));
        }
        left = left - wide;
        from = from - 1;
    }
    proof {
        let head = chars@.subrange(0, from as int);
        if from > 0 {
            assert(head.last() == chars@[from - 1]);
        }
        assert(last_part(head, left as nat) =~= Seq::<char>::empty());
        assert(last_part(text@, room as nat) =~= chars@.subrange(
            from as int,
            chars@.len() as int,
        ));
    }
    let end: usize = chars.len();
    text_of(crate::text::part_of(&chars, from, end).as_slice())
}

fn join_words(text: &str) -> (result: String)
    ensures
        result@ == words(text@, text@.len()).0,
{
    let chars: Vec<char> = chars_of(text);
    let mut out: Vec<char> = Vec::new();
    let mut gap: bool = false;
    let mut i: usize = 0;
    while i < chars.len()
        invariant
            i <= chars@.len(),
            chars@ == text@,
            (out@, gap) == words(text@, i as nat),
        decreases chars@.len() - i,
    {
        if is_whitespace(chars[i]) {
            gap = true;
        } else {
            if gap && out.len() > 0 {
                out.push(' ');
            }
            out.push(chars[i]);
            gap = false;
        }
        i = i + 1;
    }
    text_of(out.as_slice())
}

fn take_optional_group(found: &Match, i: usize) -> (result: Option<String>)
    ensures
        schema::optional_text(result) == optional_group(found@, i as nat),
{
    if i < found.groups.len() {
        match &found.groups[i] {
            Some(text) => Some(copy_text(text.as_str())),
            None => None,
        }
    } else {
        None
    }
}

fn take_group(found: &Match, i: usize) -> (result: String)
    ensures
        result@ == group_of(found@, i as nat),
{
    match take_optional_group(found, i) {
        Some(text) => text,
        None => String::new(),
    }
}

fn read_place(text: Option<String>) -> (result: Option<u32>)
    ensures
        result == place_of(schema::optional_text(text)),
{
    match text {
        None => None,
        Some(digits) => match parse_unsigned(
            chars_of(digits.as_str()).as_slice(),
            u32::MAX as u64,
        ) {
            Some(value) => Some(value as u32),
            None => None,
        },
    }
}

fn read_properties(list: &Vec<Match>) -> (result: Vec<(String, RedProperty)>)
    ensures
        entries::keyed(result@) == declared_properties(match_models(list@), list@.len()),
{
    let ghost all = match_models(list@);
    let mut out: Vec<(String, RedProperty)> = Vec::new();
    assert(entries::keyed(out@) =~= Seq::empty());
    let mut i: usize = 0;
    while i < list.len()
        invariant
            i <= list@.len(),
            all == match_models(list@),
            entries::keyed(out@) == declared_properties(all, i as nat),
        decreases list@.len() - i,
    {
        assert(all[i as int] == list@[i as int]@);
        let property: RedProperty = RedProperty {
            cs_type: join_words(take_group(&list[i], 3).as_str()),
            ordinal: read_place(take_optional_group(&list[i], 1)),
            red_type: None,
            offset: None,
            flags: None,
        };
        let name: String = take_group(&list[i], 2);
        set_value(&mut out, name, property);
        i = i + 1;
    }
    out
}

/// Reads the class that a source declares first, if it declares one.
pub fn read_class(text: &str) -> (result: Result<Option<(String, RedClass)>, BadExpression>)
    ensures
        match declared_class(text@) {
            Ok(None) => result matches Ok(None),
            Ok(Some((name, class))) => result matches Ok(Some(r)) && r.0@ == name && r.1@ == class,
            Err(error) => result matches Err(e) && e == error,
        },
{
    let classes: Vec<Match> = match find_matches(CLASS_EXPRESSION, text) {
        Some(classes) => classes,
        None => return Err(BadExpression { expression: CLASS_EXPRESSION }),
    };
    if classes.len() == 0 {
        return Ok(None);
    }
    assert(match_models(classes@)[0] == classes@[0]@);
    let near: String = take_last_part(classes[0].before.as_str(), ALIAS_ROOM);
    let aliases: Vec<Match> = match find_matches(ALIAS_EXPRESSION, near.as_str()) {
        Some(aliases) => aliases,
        None => return Err(BadExpression { expression: ALIAS_EXPRESSION }),
    };
    let properties: Vec<Match> = match find_matches(PROPERTY_EXPRESSION, text) {
        Some(properties) => properties,
        None => return Err(BadExpression { expression: PROPERTY_EXPRESSION }),
    };
    let name: String = if aliases.len() == 0 {
        take_group(&classes[0], 1)
    } else {
        assert(match_models(aliases@)[0] == aliases@[0]@);
        take_group(&aliases[0], 1)
    };
    let class: RedClass = RedClass {
        base: take_optional_group(&classes[0], 2),
        properties: read_properties(&properties),
        flags: None,
        size: None,
        alignment: None,
    };
    Ok(Some((name, class)))
}

fn complete(own: RedClass, part: RedClass) -> (result: RedClass)
    ensures
        result@ == completed(own@, part@),
{
    let mut properties: Vec<(String, RedProperty)> = own.properties;
    extend_entries(&mut properties, part.properties);
    RedClass {
        base: if own.base.is_none() {
            part.base
        } else {
            own.base
        },
        properties,
        flags: own.flags,
        size: own.size,
        alignment: own.alignment,
    }
}

/// Takes a class in, or completes the one that has its name.
pub fn add_class(classes: &mut Vec<(String, RedClass)>, name: String, class: RedClass)
    ensures
        entries::keyed(final(classes)@) == with_declared(
            entries::keyed(old(classes)@),
            name@,
            class@,
        ),
{
    let ghost held = entries::keyed(classes@);
    match position(classes, name.as_str()) {
        None => {
            set_value(classes, name, class);
        },
        Some(at) => {
            let ghost listed = classes@;
            let spare: (String, RedClass) = (
                String::new(),
                RedClass {
                    base: None,
                    properties: Vec::new(),
                    flags: None,
                    size: None,
                    alignment: None,
                },
            );
            let ghost kept = spare;
            classes.push(spare);
            let own: (String, RedClass) = classes.swap_remove(at);
            assert(classes@ =~= listed.update(at as int, kept));
            assert(held[at as int] == (listed[at as int].0@, listed[at as int].1@));
            let done: RedClass = complete(own.1, class);
            let ghost added = (name@, done@);
            classes.set(at, (name, done));
            assert(entries::keyed(classes@) =~= held.update(at as int, added));
        },
    }
}

/// However the parts of classes come, the classes stay in the order of their
/// names, and a class that was read is there.
pub proof fn law_classes_in_order(
    own: Seq<(Seq<char>, ClassModel)>,
    name: Seq<char>,
    class: ClassModel,
)
    requires
        entries::rising(own),
    ensures
        entries::rising(with_declared(own, name, class)),
        entries::find(with_declared(own, name, class), name) == Some(
            match entries::find(own, name) {
                Some(known) => completed(known, class),
                None => class,
            },
        ),
{
    entries::lemma_index_of(own, name);
    match entries::index_of(own, name) {
        Some(i) => {
            let value = completed(own[i as int].1, class);
            assert forall|k: int| 0 <= k < i implies entries::text_less(
                #[trigger] own[k].0,
                name,
            ) by {
                assert(entries::text_less(own[k].0, own[i as int].0));
            }
            entries::lemma_irreflexive(name);
            entries::lemma_place_is(own, name, i);
            assert(with_declared(own, name, class) == entries::put(own, name, value));
            entries::law_put_rising(own, name, value);
            entries::law_find_put(own, name, value);
        },
        None => {
            entries::law_put_rising(own, name, class);
            entries::law_find_put(own, name, class);
        },
    }
}

} // verus!
