//! Where a package has its tables, and what its values are.

use crate::codec_leaf_laws;
use crate::codec_leaf_laws::{eight, four, is_reference, is_stored, two, whole, with_sign};
use crate::entries;
use crate::number_text;
use crate::object_laws;
use crate::object_laws::{has_fields, said};
use crate::red_types;
use crate::redpackage;
use crate::redpackage::{Fault, ImportModel, PathModel};
use crate::redpackage_decoder;
use crate::redpackage_reader;
use crate::redpackage_reader::Package;
use crate::value;
use vstd::arithmetic::div_mod::lemma_fundamental_div_mod_converse;
use vstd::prelude::*;
use vstd::utf8;

verus! {

// ---------------------------------------------------------------------------
// Tables
// ---------------------------------------------------------------------------

/// Whether a name stands at a place, with a zero behind it.
pub open spec fn is_name(b: Seq<u8>, at: nat, size: nat, name: Seq<char>) -> bool {
    &&& 0 < size
    &&& at + size <= b.len()
    &&& b[at + size - 1] == 0
    &&& utf8::valid_utf8(b.subrange(at as int, at + size - 1))
    &&& name == utf8::decode_utf8(b.subrange(at as int, at + size - 1))
}

/// Whether an import stands at a place: a hash of eight bytes or a text.
pub open spec fn is_import(
    b: Seq<u8>,
    at: nat,
    size: nat,
    hashes: bool,
    path: PathModel,
) -> bool {
    &&& at + size <= b.len()
    &&& match path {
        PathModel::Hash(hash) => hashes && size == 8 && hash == eight(b, at),
        PathModel::Text(text) => !hashes && utf8::valid_utf8(
            b.subrange(at as int, (at + size) as int),
        ) && text == utf8::decode_utf8(b.subrange(at as int, (at + size) as int)),
    }
}

/// Whether a descriptor of a name leads to it: three bytes for its place, one for its
/// size.
pub open spec fn name_described(b: Seq<u8>, base: nat, at: nat, name: Seq<char>) -> bool {
    &&& at + 4 <= b.len()
    &&& is_name(
        b,
        base + two(b, at) + 0x1_0000 * b[at as int + 2] as nat,
        b[at as int + 3] as nat,
        name,
    )
}

/// Whether a descriptor of an import leads to it: 23 bits for its place, eight for its
/// size, and one that is set where the import is soft.
pub open spec fn import_described(
    b: Seq<u8>,
    base: nat,
    at: nat,
    hashes: bool,
    import: ImportModel,
) -> bool {
    let high = b[at as int + 2] as nat;
    let top = b[at as int + 3] as nat;
    &&& at + 4 <= b.len()
    &&& is_import(
        b,
        base + two(b, at) + 0x1_0000 * (high % 128),
        high / 128 + 2 * (top % 128),
        hashes,
        import.path,
    )
    &&& import.soft == (top >= 128)
}

proof fn lemma_bits(b: Seq<u8>, at: nat)
    requires
        at + 4 <= b.len(),
    ensures
        ({
            let bits = four(b, at);
            let high = b[at as int + 2] as nat;
            let top = b[at as int + 3] as nat;
            &&& redpackage::number(b, at, 4) == Ok::<nat, Fault>(bits)
            &&& bits % 0x100_0000 == two(b, at) + 0x1_0000 * high
            &&& bits / 0x100_0000 == top
            &&& bits % 0x80_0000 == two(b, at) + 0x1_0000 * (high % 128)
            &&& bits / 0x80_0000 % 0x100 == high / 128 + 2 * (top % 128)
            &&& (bits / 0x8000_0000 != 0) == (top >= 128)
        }),
{
    codec_leaf_laws::lemma_numbers(b, at);
    let low = two(b, at);
    let high = b[at as int + 2] as nat;
    let top = b[at as int + 3] as nat;
    let bits = four(b, at);
    assert(bits == low + 0x1_0000 * high + 0x100_0000 * top);
    assert(low <= 0xffff);
    lemma_split(bits, 0x100_0000, top, low + 0x1_0000 * high);
    let middle = high / 128 + 2 * top;
    assert(bits == low + 0x1_0000 * (high % 128) + 0x80_0000 * middle);
    lemma_split(bits, 0x80_0000, middle, low + 0x1_0000 * (high % 128));
    assert(middle == (high / 128 + 2 * (top % 128)) + 0x100 * (top / 128));
    lemma_split(middle, 0x100, top / 128, high / 128 + 2 * (top % 128));
    let below = low + 0x1_0000 * high + 0x100_0000 * (top % 128);
    assert(bits == below + 0x8000_0000 * (top / 128));
    lemma_split(bits, 0x8000_0000, top / 128, below);
}

proof fn lemma_split(value: nat, base: nat, high: nat, low: nat)
    requires
        value == low + base * high,
        low < base,
    ensures
        value / base == high,
        value % base == low,
{
    assert(base * high == high * base) by (nonlinear_arith);
    lemma_fundamental_div_mod_converse(value as int, base as int, high as int, low as int);
}

proof fn lemma_names(b: Seq<u8>, base: nat, at: nat, left: nat, found: Seq<Seq<char>>)
    requires
        redpackage::names_from(b, base, at + 4 * found.len(), left, found) is Ok,
        forall|i: nat|
            i < found.len() ==> name_described(b, base, at + 4 * i, #[trigger] found[i as int]),
    ensures
        ({
            let all = redpackage::names_from(b, base, at + 4 * found.len(), left, found)->Ok_0;
            &&& all.len() == found.len() + left
            &&& forall|i: nat|
                i < all.len() ==> name_described(b, base, at + 4 * i, #[trigger] all[i as int])
        }),
    decreases left,
{
    if left > 0 {
        let spot = at + 4 * found.len();
        lemma_bits(b, spot);
        let name = redpackage::name_at(b, base, four(b, spot))->Ok_0;
        let more = found.push(name);
        assert forall|i: nat| i < more.len() implies name_described(
            b,
            base,
            at + 4 * i,
            #[trigger] more[i as int],
        ) by {
            if i < found.len() {
                assert(more[i as int] == found[i as int]);
            }
        }
        lemma_names(b, base, at, (left - 1) as nat, more);
    }
}

proof fn lemma_import(b: Seq<u8>, base: nat, at: nat, hashes: bool)
    requires
        at + 4 <= b.len(),
        redpackage::import_at(b, base, four(b, at), hashes) is Ok,
    ensures
        import_described(
            b,
            base,
            at,
            hashes,
            redpackage::import_at(b, base, four(b, at), hashes)->Ok_0,
        ),
{
    lemma_bits(b, at);
    let start = base + four(b, at) % 0x80_0000;
    codec_leaf_laws::lemma_numbers(b, start);
}

proof fn lemma_imports(
    b: Seq<u8>,
    base: nat,
    at: nat,
    left: nat,
    hashes: bool,
    found: Seq<ImportModel>,
)
    requires
        redpackage::imports_from(b, base, at + 4 * found.len(), left, hashes, found) is Ok,
        forall|i: nat|
            i < found.len() ==> import_described(
                b,
                base,
                at + 4 * i,
                hashes,
                #[trigger] found[i as int],
            ),
    ensures
        ({
            let all = redpackage::imports_from(
                b,
                base,
                at + 4 * found.len(),
                left,
                hashes,
                found,
            )->Ok_0;
            &&& all.len() == found.len() + left
            &&& forall|i: nat|
                i < all.len() ==> import_described(
                    b,
                    base,
                    at + 4 * i,
                    hashes,
                    #[trigger] all[i as int],
                )
        }),
    decreases left,
{
    if left > 0 {
        let spot = at + 4 * found.len();
        lemma_bits(b, spot);
        lemma_import(b, base, spot, hashes);
        let import = redpackage::import_at(b, base, four(b, spot), hashes)->Ok_0;
        let more = found.push(import);
        assert forall|i: nat| i < more.len() implies import_described(
            b,
            base,
            at + 4 * i,
            hashes,
            #[trigger] more[i as int],
        ) by {
            if i < found.len() {
                assert(more[i as int] == found[i as int]);
            }
        }
        lemma_imports(b, base, at, (left - 1) as nat, hashes, more);
    }
}

/// Whether a chunk is described at a place: the index of its class, and where it starts.
pub open spec fn chunk_described(b: Seq<u8>, base: nat, at: nat, chunk: (nat, nat)) -> bool {
    &&& at + 8 <= b.len()
    &&& chunk.0 == four(b, at)
    &&& chunk.1 == base + four(b, at + 4)
}

proof fn lemma_chunks(b: Seq<u8>, base: nat, at: nat, left: nat, found: Seq<(nat, nat)>)
    requires
        redpackage::chunks_from(b, base, at + 8 * found.len(), left, found) is Ok,
        forall|i: nat|
            i < found.len() ==> chunk_described(b, base, at + 8 * i, #[trigger] found[i as int]),
    ensures
        ({
            let all = redpackage::chunks_from(b, base, at + 8 * found.len(), left, found)->Ok_0;
            &&& all.len() == found.len() + left
            &&& forall|i: nat|
                i < all.len() ==> chunk_described(b, base, at + 8 * i, #[trigger] all[i as int])
        }),
    decreases left,
{
    if left > 0 {
        let spot = at + 8 * found.len();
        codec_leaf_laws::lemma_numbers(b, spot);
        codec_leaf_laws::lemma_numbers(b, spot + 4);
        let more = found.push((four(b, spot), base + four(b, spot + 4)));
        assert forall|i: nat| i < more.len() implies chunk_described(
            b,
            base,
            at + 8 * i,
            #[trigger] more[i as int],
        ) by {
            if i < found.len() {
                assert(more[i as int] == found[i as int]);
            }
        }
        lemma_chunks(b, base, at, (left - 1) as nat, more);
    }
}

/// A package has its version, a mark and the number of its sections in its first four
/// bytes. Behind eight bytes stand the offsets of its tables: those of the imports, where
/// it has seven sections, then those of the names and those of the chunks. They count
/// from behind the list of identifiers.
pub proof fn law_layout_read(b: Seq<u8>, hashes: bool)
    requires
        redpackage::layout_of(b, hashes) is Ok,
    ensures
        ({
            let l = redpackage::layout_of(b, hashes)->Ok_0;
            let head: nat = if two(b, 2) == 7 {
                32
            } else {
                24
            };
            let base = head + 4 + 8 * two(b, head + 2);
            let names = four(b, (head - 16) as nat);
            let names_end = four(b, (head - 12) as nat);
            let chunks = four(b, (head - 8) as nat);
            let chunks_end = four(b, (head - 4) as nat);
            &&& l.version == b[0]
            &&& l.unknown1 == b[1]
            &&& l.sections == two(b, 2)
            &&& l.header_size == head
            &&& l.base == base
            &&& names <= names_end && l.names.len() == (names_end - names) / 4
            &&& forall|i: nat|
                i < l.names.len() ==> name_described(
                    b,
                    base,
                    base + names + 4 * i,
                    #[trigger] l.names[i as int],
                )
            &&& chunks <= chunks_end && l.chunks.len() == (chunks_end - chunks) / 8
            &&& forall|i: nat|
                i < l.chunks.len() ==> chunk_described(
                    b,
                    base,
                    base + chunks + 8 * i,
                    #[trigger] l.chunks[i as int],
                )
            &&& head == 24 ==> l.imports.len() == 0
            &&& head == 32 ==> four(b, 8) <= four(b, 12) && l.imports.len() == (four(b, 12)
                - four(b, 8)) / 4
            &&& head == 32 ==> forall|i: nat|
                i < l.imports.len() ==> import_described(
                    b,
                    base,
                    base + four(b, 8) + 4 * i,
                    hashes,
                    #[trigger] l.imports[i as int],
                )
        }),
{
    codec_leaf_laws::lemma_numbers(b, 2);
    codec_leaf_laws::lemma_numbers(b, 8);
    codec_leaf_laws::lemma_numbers(b, 12);
    codec_leaf_laws::lemma_numbers(b, 16);
    codec_leaf_laws::lemma_numbers(b, 20);
    codec_leaf_laws::lemma_numbers(b, 24);
    codec_leaf_laws::lemma_numbers(b, 28);
    let head: nat = if two(b, 2) == 7 {
        32
    } else {
        24
    };
    codec_leaf_laws::lemma_numbers(b, head + 2);
    let base = head + 4 + 8 * two(b, head + 2);
    let offsets = redpackage::section_offsets(b, two(b, 2))->Ok_0;
    lemma_tables(b, base, offsets, hashes);
}

proof fn lemma_tables(
    b: Seq<u8>,
    base: nat,
    o: (nat, nat, nat, nat, nat, nat),
    hashes: bool,
)
    requires
        redpackage::tables(b, base, o, hashes) is Ok,
    ensures
        ({
            let (imports, names, chunks) = redpackage::tables(b, base, o, hashes)->Ok_0;
            &&& o.0 <= o.1 && imports.len() == (o.1 - o.0) / 4
            &&& forall|i: nat|
                i < imports.len() ==> import_described(
                    b,
                    base,
                    base + o.0 + 4 * i,
                    hashes,
                    #[trigger] imports[i as int],
                )
            &&& o.2 <= o.3 && names.len() == (o.3 - o.2) / 4
            &&& forall|i: nat|
                i < names.len() ==> name_described(
                    b,
                    base,
                    base + o.2 + 4 * i,
                    #[trigger] names[i as int],
                )
            &&& o.4 <= o.5 && chunks.len() == (o.5 - o.4) / 8
            &&& forall|i: nat|
                i < chunks.len() ==> chunk_described(
                    b,
                    base,
                    base + o.4 + 8 * i,
                    #[trigger] chunks[i as int],
                )
        }),
{
    lemma_imports(b, base, base + o.0, (o.1 - o.0) as nat / 4, hashes, Seq::empty());
    lemma_names(b, base, base + o.2, (o.3 - o.2) as nat / 4, Seq::empty());
    lemma_chunks(b, base, base + o.4, (o.5 - o.4) as nat / 8, Seq::empty());
}

// ---------------------------------------------------------------------------
// Fields
// ---------------------------------------------------------------------------

/// Whether a field is described at a place of a class: the index of its name, that of its
/// type, and where its value starts, counted from the start of the class.
pub open spec fn field_described(
    b: Seq<u8>,
    class: nat,
    at: nat,
    field: (nat, nat, nat),
) -> bool {
    &&& at + 8 <= b.len()
    &&& field.0 == two(b, at)
    &&& field.1 == two(b, at + 2)
    &&& field.2 == class + four(b, at + 4)
}

proof fn lemma_fields(b: Seq<u8>, class: nat, at: nat, left: nat, found: Seq<(nat, nat, nat)>)
    requires
        redpackage_reader::fields_from(b, class, at + 8 * found.len(), left, found) is Ok,
        forall|i: nat|
            i < found.len() ==> field_described(b, class, at + 8 * i, #[trigger] found[i as int]),
    ensures
        ({
            let all = redpackage_reader::fields_from(
                b,
                class,
                at + 8 * found.len(),
                left,
                found,
            )->Ok_0;
            &&& all.len() == found.len() + left
            &&& forall|i: nat|
                i < all.len() ==> field_described(b, class, at + 8 * i, #[trigger] all[i as int])
        }),
    decreases left,
{
    if left > 0 {
        let spot = at + 8 * found.len();
        codec_leaf_laws::lemma_numbers(b, spot);
        codec_leaf_laws::lemma_numbers(b, spot + 2);
        codec_leaf_laws::lemma_numbers(b, spot + 4);
        let more = found.push((two(b, spot), two(b, spot + 2), class + four(b, spot + 4)));
        assert forall|i: nat| i < more.len() implies field_described(
            b,
            class,
            at + 8 * i,
            #[trigger] more[i as int],
        ) by {
            if i < found.len() {
                assert(more[i as int] == found[i as int]);
            }
        }
        lemma_fields(b, class, at, (left - 1) as nat, more);
    }
}

/// A class has the number of its fields in two bytes, and eight bytes for each field.
pub proof fn law_fields_read(b: Seq<u8>, class: nat)
    requires
        redpackage_reader::fields_of(b, class) is Ok,
    ensures
        ({
            let fields = redpackage_reader::fields_of(b, class)->Ok_0;
            &&& fields.len() == two(b, class)
            &&& forall|i: nat|
                i < fields.len() ==> field_described(
                    b,
                    class,
                    class + 2 + 8 * i,
                    #[trigger] fields[i as int],
                )
        }),
{
    codec_leaf_laws::lemma_numbers(b, class);
    lemma_fields(b, class, class + 2, two(b, class), Seq::empty());
}

/// The value of a field is put under its name, and the next field is read.
pub proof fn law_field_read(
    p: Package,
    class: Seq<char>,
    fields: Seq<(nat, nat, nat)>,
    i: nat,
    start: nat,
    limit: nat,
    object: Seq<(Seq<char>, value::Model)>,
    consumed: nat,
    m: value::Model,
    behind: nat,
)
    requires
        i < fields.len(),
        fields[i as int].0 < p.names.len(),
        fields[i as int].1 < p.names.len(),
        ({
            let place = fields[i as int].2;
            let end = if i + 1 < fields.len() {
                fields[i as int + 1].2
            } else {
                limit
            };
            &&& place <= end <= limit
            &&& behind <= end
            &&& redpackage_decoder::field_value(
                p,
                class,
                p.names[fields[i as int].0 as int],
                p.names[fields[i as int].1 as int],
                place,
                end,
                start,
                limit,
            ) == Ok::<(value::Model, nat), Fault>((m, behind))
        }),
    ensures
        redpackage_decoder::record(p, class, fields, i, start, limit, object, consumed)
            == redpackage_decoder::record(
            p,
            class,
            fields,
            i + 1,
            start,
            limit,
            entries::put(object, p.names[fields[i as int].0 as int], m),
            behind,
        ),
{
}

// ---------------------------------------------------------------------------
// Values
// ---------------------------------------------------------------------------

/// The names of types of values, none of which is that of a number.
proof fn lemma_types()
    ensures
        "CName"@.len() == 5,
        "NodeRef"@.len() == 7,
        "TweakDBID"@.len() == 9,
        "LocalizationString"@.len() == 18,
        "String"@.len() == 6,
        "CString"@.len() == 7,
        "CString"@ != "NodeRef"@,
        !redpackage_reader::numeric("CName"@),
        !redpackage_reader::numeric("NodeRef"@),
        !redpackage_reader::numeric("TweakDBID"@),
        !redpackage_reader::numeric("LocalizationString"@),
        !redpackage_reader::numeric("String"@),
        !redpackage_reader::numeric("CString"@),
{
    codec_leaf_laws::lemma_types();
    reveal_strlit("CRUID");
    reveal_strlit("CDateTime");
    reveal_strlit("Float");
    reveal_strlit("Double");
    reveal_strlit("Uint8");
    reveal_strlit("Int16");
    reveal_strlit("Int32");
    reveal_strlit("Int64");
    reveal_strlit("Uint16");
    reveal_strlit("Uint32");
    reveal_strlit("Uint64");
    reveal_strlit("CName");
    reveal_strlit("NodeRef");
    reveal_strlit("TweakDBID");
    reveal_strlit("LocalizationString");
    reveal_strlit("String");
    reveal_strlit("CString");
    assert("CName"@.len() == 5 && "NodeRef"@.len() == 7 && "TweakDBID"@.len() == 9
        && "LocalizationString"@.len() == 18 && "String"@.len() == 6 && "CString"@.len() == 7);
    assert("CString"@[0] == 'C' && "NodeRef"@[0] == 'N' && "CDateTime"@[0] == 'C'
        && "TweakDBID"@[0] == 'T');
    assert("CName"@[1] == 'N' && "CRUID"@[1] == 'R');
    assert("Uint8"@[0] == 'U' && "Int16"@[0] == 'I' && "Int32"@[0] == 'I' && "Int64"@[0] == 'I'
        && "Float"@[0] == 'F' && "CName"@[0] == 'C');
    assert("Uint16"@[0] == 'U' && "Uint32"@[0] == 'U' && "Uint64"@[0] == 'U' && "Double"@[0]
        == 'D' && "String"@[0] == 'S');
}

/// A reference is stored as the index of its import, which counts from zero. A negative
/// one leads nowhere. A reference to a soft import is soft.
pub proof fn law_reference_read(p: Package, t: Seq<char>, start: nat, limit: nat)
    requires
        codec_leaf_laws::refers(t),
        start + 2 <= p.bytes.len(),
    ensures
        ({
            let i = with_sign(two(p.bytes, start), 0x8000);
            let read = redpackage_reader::leaf(p, t, start, limit);
            if i < 0 {
                read matches Ok((m, end)) && end == start + 2 && is_reference(
                    m,
                    "uint64"@,
                    "0"@,
                    "Default"@,
                )
            } else if i < p.imports.len() {
                let flags = if p.imports[i].soft {
                    "Soft"@
                } else {
                    "Default"@
                };
                match p.imports[i].path {
                    PathModel::Text(path) => read matches Ok((m, end)) && end == start + 2
                        && is_reference(m, "string"@, path, flags),
                    PathModel::Hash(hash) => read matches Ok((m, end)) && end == start + 2
                        && is_reference(
                        m,
                        "uint64"@,
                        number_text::decimal(hash as nat),
                        flags,
                    ),
                }
            } else {
                read == Err::<(value::Model, nat), Fault>(
                    Fault::Malformed(start, "import index"@),
                )
            }
        }),
{
    lemma_refers(p, t);
    codec_leaf_laws::lemma_numbers(p.bytes, start);
    let i = with_sign(two(p.bytes, start), 0x8000);
    if i < 0 {
        codec_leaf_laws::lemma_reference("uint64"@, "0"@, "Default"@);
    } else if i < p.imports.len() {
        let flags = if p.imports[i].soft {
            "Soft"@
        } else {
            "Default"@
        };
        match p.imports[i].path {
            PathModel::Text(path) => {
                codec_leaf_laws::lemma_reference("string"@, path, flags);
            },
            PathModel::Hash(hash) => {
                codec_leaf_laws::lemma_reference(
                    "uint64"@,
                    number_text::decimal(hash as nat),
                    flags,
                );
            },
        }
    }
}

proof fn lemma_refers(p: Package, t: Seq<char>)
    requires
        codec_leaf_laws::refers(t) || codec_leaf_laws::handles(t),
    ensures
        !redpackage_reader::named(t),
        codec_leaf_laws::refers(t) ==> red_types::is_reference(t) && !red_types::is_handle(t),
        codec_leaf_laws::handles(t) ==> red_types::is_handle(t),
{
    codec_leaf_laws::lemma_marked(t);
}

/// A handle is stored as the index of its chunk, in two bytes in packages of version two
/// and else in four. A negative one is null.
pub proof fn law_handle_read(p: Package, t: Seq<char>, start: nat, limit: nat)
    requires
        codec_leaf_laws::handles(t),
        start + 4 <= p.bytes.len(),
    ensures
        ({
            let (n, size) = if p.version == 2 {
                (with_sign(two(p.bytes, start), 0x8000), 2nat)
            } else {
                (with_sign(four(p.bytes, start), 0x8000_0000), 4nat)
            };
            &&& redpackage_reader::leaf(p, t, start, limit) matches Ok((m, end))
            &&& end == start + size
            &&& n < 0 ==> m == value::Model::Null
            &&& n >= 0 ==> has_fields(m, seq![("$package_handle"@, whole(n))])
        }),
{
    lemma_refers(p, t);
    codec_leaf_laws::lemma_numbers(p.bytes, start);
    let n = if p.version == 2 {
        with_sign(two(p.bytes, start), 0x8000)
    } else {
        with_sign(four(p.bytes, start), 0x8000_0000)
    };
    let l0 = Seq::<(Seq<char>, value::Model)>::empty();
    object_laws::lemma_none::<value::Model>();
    object_laws::lemma_with(l0, l0, "$package_handle"@, whole(n));
    assert(l0.push(("$package_handle"@, whole(n))) =~= seq![("$package_handle"@, whole(n))]);
}

/// A name is stored as its index among the names of the package.
pub proof fn law_name_read(p: Package, start: nat, limit: nat)
    requires
        start + 2 <= p.bytes.len(),
    ensures
        ({
            let i = two(p.bytes, start);
            let read = redpackage_reader::leaf(p, "CName"@, start, limit);
            if i < p.names.len() {
                read matches Ok((m, end)) && end == limit && is_stored(
                    m,
                    "CName"@,
                    "string"@,
                    p.names[i as int],
                )
            } else {
                read == Err::<(value::Model, nat), Fault>(Fault::Malformed(start, "name index"@))
            }
        }),
{
    lemma_types();
    codec_leaf_laws::lemma_numbers(p.bytes, start);
    let i = two(p.bytes, start);
    if i < p.names.len() {
        codec_leaf_laws::lemma_stored("CName"@, "string"@, p.names[i as int]);
    }
}

/// Integers are read from their bytes, the low one first, with a sign where the type has
/// one. Those of eight bytes are written as texts.
pub proof fn law_integer_read(p: Package, t: Seq<char>, start: nat, limit: nat)
    requires
        start + 8 <= p.bytes.len(),
    ensures
        ({
            let b = p.bytes;
            let read = redpackage_reader::leaf(p, t, start, limit);
            &&& (t == "Bool"@ || t == "Uint8"@) ==> read == Ok::<(value::Model, nat), Fault>(
                (whole(b[start as int] as int), limit),
            )
            &&& t == "Int8"@ ==> read == Ok::<(value::Model, nat), Fault>(
                (whole(with_sign(b[start as int] as nat, 0x80)), limit),
            )
            &&& t == "Uint16"@ ==> read == Ok::<(value::Model, nat), Fault>(
                (whole(two(b, start) as int), limit),
            )
            &&& t == "Int16"@ ==> read == Ok::<(value::Model, nat), Fault>(
                (whole(with_sign(two(b, start), 0x8000)), limit),
            )
            &&& t == "Uint32"@ ==> read == Ok::<(value::Model, nat), Fault>(
                (whole(four(b, start) as int), limit),
            )
            &&& t == "Int32"@ ==> read == Ok::<(value::Model, nat), Fault>(
                (whole(with_sign(four(b, start), 0x8000_0000)), limit),
            )
            &&& t == "Int64"@ ==> read == Ok::<(value::Model, nat), Fault>(
                (
                    said(
                        number_text::signed_decimal(
                            with_sign(eight(b, start), 0x8000_0000_0000_0000),
                        ),
                    ),
                    limit,
                ),
            )
            &&& (t == "Uint64"@ || t == "CRUID"@ || t == "CDateTime"@) ==> read == Ok::<
                (value::Model, nat),
                Fault,
            >((said(number_text::decimal(eight(b, start))), limit))
            &&& t == "Float"@ ==> read == Ok::<(value::Model, nat), Fault>(
                (value::single(four(b, start)), limit),
            )
            &&& t == "Double"@ ==> read == Ok::<(value::Model, nat), Fault>(
                (value::double(eight(b, start)), limit),
            )
        }),
{
    codec_leaf_laws::lemma_types();
    codec_leaf_laws::lemma_numbers(p.bytes, start);
}

/// Whether a text stands at a place behind the number of its bytes.
pub open spec fn text_at(b: Seq<u8>, start: nat, content: Seq<char>) -> bool {
    let coded = utf8::encode_utf8(content);
    &&& start + 2 + coded.len() <= b.len()
    &&& two(b, start) == coded.len()
    &&& b.subrange(start as int + 2, (start + 2 + coded.len()) as int) == coded
}

/// Texts are read back from behind the number of their bytes.
pub proof fn law_text_read(p: Package, start: nat, limit: nat, content: Seq<char>)
    requires
        utf8::encode_utf8(content).len() < 0x8000,
    ensures
        ({
            let end = start + 2 + utf8::encode_utf8(content).len();
            text_at(p.bytes, start, content) ==> {
                &&& redpackage_reader::leaf(p, "String"@, start, limit) == Ok::<
                    (value::Model, nat),
                    Fault,
                >((said(content), end))
                &&& redpackage_reader::leaf(p, "CString"@, start, limit) == Ok::<
                    (value::Model, nat),
                    Fault,
                >((said(content), end))
                &&& redpackage_reader::leaf(p, "NodeRef"@, start, limit) matches Ok((m, last))
                    && last == end && is_stored(m, "NodeRef"@, "string"@, content)
            }
        }),
        ({
            let end = start + 10 + utf8::encode_utf8(content).len();
            text_at(p.bytes, start + 8, content) ==> {
                &&& redpackage_reader::leaf(p, "LocalizationString"@, start, limit) matches Ok(
                    (m, last),
                ) && last == end && has_fields(
                    m,
                    seq![
                        ("unk1"@, said(number_text::decimal(eight(p.bytes, start)))),
                        ("value"@, said(content)),
                    ],
                )
            }
        }),
{
    lemma_types();
    utf8::encode_utf8_valid_utf8(content);
    utf8::encode_utf8_decode_utf8(content);
    codec_leaf_laws::lemma_numbers(p.bytes, start);
    codec_leaf_laws::lemma_numbers(p.bytes, start + 8);
    codec_leaf_laws::lemma_stored("NodeRef"@, "string"@, content);
    reveal_strlit("unk1");
    reveal_strlit("value");
    assert("unk1"@.len() == 4);
    assert("value"@.len() == 5);
    codec_leaf_laws::lemma_pair(
        "unk1"@,
        said(number_text::decimal(eight(p.bytes, start))),
        "value"@,
        said(content),
    );
}

// ---------------------------------------------------------------------------
// Compiled effects
// ---------------------------------------------------------------------------

/// A placement is stored in four bytes: the indexes of its tag, of its position and of
/// its rotation, and its flags.
pub proof fn law_placement_read(b: Seq<u8>, at: nat)
    requires
        at + 4 <= b.len() <= usize::MAX,
    ensures
        redpackage_decoder::placement_info(b, at) matches Ok((m, end)) && end == at + 4
            && has_fields(
            m,
            seq![
                ("$type"@, said("worldCompiledEffectPlacementInfo"@)),
                ("flags"@, whole(b[at as int + 3] as int)),
                ("placementTagIndex"@, whole(b[at as int] as int)),
                ("relativePositionIndex"@, whole(b[at as int + 1] as int)),
                ("relativeRotationIndex"@, whole(b[at as int + 2] as int)),
            ],
        ),
{
    reveal_strlit("$type");
    reveal_strlit("flags");
    reveal_strlit("placementTagIndex");
    reveal_strlit("relativePositionIndex");
    reveal_strlit("relativeRotationIndex");
    assert("$type"@[0] == '$' && "flags"@[0] == 'f' && "placementTagIndex"@.len() == 17
        && "relativePositionIndex"@[8] == 'P' && "relativeRotationIndex"@[8] == 'R');
    assert("$type"@.len() == 5 && "flags"@.len() == 5 && "relativePositionIndex"@.len() == 21
        && "relativeRotationIndex"@.len() == 21);
    lemma_five(
        "$type"@,
        said("worldCompiledEffectPlacementInfo"@),
        "flags"@,
        whole(b[at as int + 3] as int),
        "placementTagIndex"@,
        whole(b[at as int] as int),
        "relativePositionIndex"@,
        whole(b[at as int + 1] as int),
        "relativeRotationIndex"@,
        whole(b[at as int + 2] as int),
    );
}

pub proof fn lemma_five(
    a: Seq<char>,
    u: value::Model,
    b: Seq<char>,
    v: value::Model,
    c: Seq<char>,
    x: value::Model,
    d: Seq<char>,
    y: value::Model,
    e: Seq<char>,
    z: value::Model,
)
    requires
        a != b,
        a != c,
        a != d,
        a != e,
        b != c,
        b != d,
        b != e,
        c != d,
        c != e,
        d != e,
    ensures
        has_fields(
            value::Model::Object(
                entries::put(
                    entries::put(
                        entries::put(entries::put(entries::put(Seq::empty(), a, u), b, v), c, x),
                        d,
                        y,
                    ),
                    e,
                    z,
                ),
            ),
            seq![(a, u), (b, v), (c, x), (d, y), (e, z)],
        ),
{
    let l0 = Seq::<(Seq<char>, value::Model)>::empty();
    let l1 = l0.push((a, u));
    let l2 = l1.push((b, v));
    let l3 = l2.push((c, x));
    let l4 = l3.push((d, y));
    let e1 = entries::put(l0, a, u);
    let e2 = entries::put(e1, b, v);
    let e3 = entries::put(e2, c, x);
    let e4 = entries::put(e3, d, y);
    object_laws::lemma_none::<value::Model>();
    object_laws::lemma_with(l0, l0, a, u);
    object_laws::lemma_with(e1, l1, b, v);
    object_laws::lemma_with(e2, l2, c, x);
    object_laws::lemma_with(e3, l3, d, y);
    object_laws::lemma_with(e4, l4, e, z);
    assert(l4.push((e, z)) =~= seq![(a, u), (b, v), (c, x), (d, y), (e, z)]);
}

/// An event is stored in 32 bytes: its identifier, the sets of its placements and of its
/// components, and its flags.
pub proof fn law_event_read(b: Seq<u8>, at: nat)
    requires
        at + 32 <= b.len() <= usize::MAX,
    ensures
        redpackage_decoder::event_info(b, at) matches Ok((m, end)) && end == at + 32
            && has_fields(
            m,
            seq![
                ("$type"@, said("worldCompiledEffectEventInfo"@)),
                ("componentIndexMask"@, said(number_text::decimal(eight(b, at + 16)))),
                ("eventRUID"@, said(number_text::decimal(eight(b, at)))),
                ("flags"@, whole(b[at as int + 24] as int)),
                ("placementIndexMask"@, said(number_text::decimal(eight(b, at + 8)))),
            ],
        ),
{
    codec_leaf_laws::lemma_numbers(b, at);
    codec_leaf_laws::lemma_numbers(b, at + 8);
    codec_leaf_laws::lemma_numbers(b, at + 16);
    reveal_strlit("$type");
    reveal_strlit("componentIndexMask");
    reveal_strlit("eventRUID");
    reveal_strlit("flags");
    reveal_strlit("placementIndexMask");
    assert("$type"@[0] == '$' && "flags"@[0] == 'f' && "componentIndexMask"@[0] == 'c'
        && "eventRUID"@[0] == 'e' && "placementIndexMask"@[0] == 'p');
    assert("$type"@.len() == 5 && "flags"@.len() == 5 && "componentIndexMask"@.len() == 18
        && "eventRUID"@.len() == 9 && "placementIndexMask"@.len() == 18);
    lemma_five(
        "$type"@,
        said("worldCompiledEffectEventInfo"@),
        "componentIndexMask"@,
        said(number_text::decimal(eight(b, at + 16))),
        "eventRUID"@,
        said(number_text::decimal(eight(b, at))),
        "flags"@,
        whole(b[at as int + 24] as int),
        "placementIndexMask"@,
        said(number_text::decimal(eight(b, at + 8))),
    );
}

} // verus!
