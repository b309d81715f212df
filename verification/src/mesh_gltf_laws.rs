//! The attributes of an exported mesh lead to its vertices.

use crate::codec_leaf_laws;
use crate::codec_leaf_laws::{four, two, whole};
use crate::binary;
use crate::entries;
use crate::glb;
use crate::mesh_gltf;
use crate::mesh_gltf::{BuilderModel, GltfMesh};
use crate::object_laws::said;
use crate::value;
use vstd::prelude::*;

verus! {

// ---------------------------------------------------------------------------
// Bytes
// ---------------------------------------------------------------------------

/// Word `i` of 32 bits stands behind `i` times four bytes.
pub proof fn law_word(words: Seq<u32>, i: nat)
    requires
        i < words.len(),
    ensures
        mesh_gltf::word_bytes(words).len() == 4 * words.len(),
        four(mesh_gltf::word_bytes(words), 4 * i) == words[i as int],
    decreases words.len(),
{
    let front = words.drop_last();
    let bytes = mesh_gltf::word_bytes(words);
    let last = binary::le_bytes(words.last() as nat, 4);
    binary::lemma_le_bytes_len(words.last() as nat, 4);
    lemma_words_len(front);
    if i < front.len() {
        law_word(front, i);
        let before = mesh_gltf::word_bytes(front);
        assert(bytes[4 * i as int] == before[4 * i as int]);
        assert(bytes[4 * i as int + 1] == before[4 * i as int + 1]);
        assert(bytes[4 * i as int + 2] == before[4 * i as int + 2]);
        assert(bytes[4 * i as int + 3] == before[4 * i as int + 3]);
    } else {
        binary::lemma_byte_ranges();
        assert(bytes.subrange(4 * i as int, (4 * i + 4) as int) =~= last);
        binary::law_read_written(words.last() as nat, 4);
        codec_leaf_laws::lemma_numbers(bytes, 4 * i);
    }
}

proof fn lemma_words_len(words: Seq<u32>)
    ensures
        mesh_gltf::word_bytes(words).len() == 4 * words.len(),
    decreases words.len(),
{
    if words.len() > 0 {
        lemma_words_len(words.drop_last());
        binary::lemma_le_bytes_len(words.last() as nat, 4);
    }
}

/// Word `i` of 16 bits stands behind `i` times two bytes.
pub proof fn law_short(words: Seq<u16>, i: nat)
    requires
        i < words.len(),
    ensures
        mesh_gltf::short_bytes(words).len() == 2 * words.len(),
        two(mesh_gltf::short_bytes(words), 2 * i) == words[i as int],
    decreases words.len(),
{
    let front = words.drop_last();
    let bytes = mesh_gltf::short_bytes(words);
    let last = binary::le_bytes(words.last() as nat, 2);
    binary::lemma_le_bytes_len(words.last() as nat, 2);
    lemma_shorts_len(front);
    if i < front.len() {
        law_short(front, i);
        let before = mesh_gltf::short_bytes(front);
        assert(bytes[2 * i as int] == before[2 * i as int]);
        assert(bytes[2 * i as int + 1] == before[2 * i as int + 1]);
    } else {
        binary::lemma_byte_ranges();
        assert(bytes.subrange(2 * i as int, (2 * i + 2) as int) =~= last);
        binary::law_read_written(words.last() as nat, 2);
        codec_leaf_laws::lemma_numbers(bytes, 2 * i);
    }
}

proof fn lemma_shorts_len(words: Seq<u16>)
    ensures
        mesh_gltf::short_bytes(words).len() == 2 * words.len(),
    decreases words.len(),
{
    if words.len() > 0 {
        lemma_shorts_len(words.drop_last());
        binary::lemma_le_bytes_len(words.last() as nat, 2);
    }
}

// ---------------------------------------------------------------------------
// Accessors
// ---------------------------------------------------------------------------

/// What an accessor leads to: bytes that are numbers of a kind, and how many vectors of
/// which form they are.
pub ghost struct Content {
    pub bytes: Seq<u8>,
    pub component: nat,
    pub count: nat,
    pub form: Seq<char>,
}

/// Whether an accessor leads through a view to a place of the binary.
pub open spec fn leads(b: BuilderModel, a: nat, view: nat, at: nat, c: Content) -> bool {
    &&& a < b.accessors.len()
    &&& view < b.views.len()
    &&& value::member(b.accessors[a as int], "bufferView"@) == Some(whole(view as int))
    &&& value::member(b.accessors[a as int], "componentType"@) == Some(whole(c.component as int))
    &&& value::member(b.accessors[a as int], "count"@) == Some(whole(c.count as int))
    &&& value::member(b.accessors[a as int], "type"@) == Some(said(c.form))
    &&& value::member(b.views[view as int], "buffer"@) == Some(whole(0))
    &&& value::member(b.views[view as int], "byteOffset"@) == Some(whole(at as int))
    &&& value::member(b.views[view as int], "byteLength"@) == Some(whole(c.bytes.len() as int))
    &&& at % 4 == 0
    &&& at + c.bytes.len() <= b.binary.len()
    &&& b.binary.subrange(at as int, (at + c.bytes.len()) as int) == c.bytes
}

/// Whether an accessor leads to some content.
pub open spec fn serves(b: BuilderModel, a: nat, c: Content) -> bool {
    exists|view: nat, at: nat| #[trigger] leads(b, a, view, at, c)
}

/// Whether an attribute leads to some content.
pub open spec fn attributed(
    b: BuilderModel,
    attributes: Seq<(Seq<char>, value::Model)>,
    name: Seq<char>,
    c: Content,
) -> bool {
    exists|a: nat|
        entries::find(attributes, name) == Some(whole(a as int)) && #[trigger] serves(b, a, c)
}

/// Floats as the content of an accessor.
pub open spec fn floats(bits: Seq<u32>, width: nat, form: Seq<char>) -> Content {
    Content {
        bytes: mesh_gltf::word_bytes(bits),
        component: 5126,
        count: bits.len() / width,
        form,
    }
}

/// Whether an attribute leads to some floats, or is left out where there are none.
pub open spec fn has_floats(
    b: BuilderModel,
    attributes: Seq<(Seq<char>, value::Model)>,
    name: Seq<char>,
    bits: Seq<u32>,
    width: nat,
    form: Seq<char>,
) -> bool {
    if bits.len() == 0 {
        entries::find(attributes, name) is None
    } else {
        attributed(b, attributes, name, floats(bits, width, form))
    }
}

spec fn grows(a: BuilderModel, b: BuilderModel) -> bool {
    &&& a.binary.len() <= b.binary.len()
    &&& b.binary.subrange(0, a.binary.len() as int) == a.binary
    &&& a.views.len() <= b.views.len()
    &&& forall|i: int| 0 <= i < a.views.len() ==> #[trigger] b.views[i] == a.views[i]
    &&& a.accessors.len() <= b.accessors.len()
    &&& forall|i: int| 0 <= i < a.accessors.len() ==> #[trigger] b.accessors[i] == a.accessors[i]
}

proof fn lemma_kept(a: BuilderModel, b: BuilderModel, n: nat, c: Content)
    requires
        grows(a, b),
        serves(a, n, c),
    ensures
        serves(b, n, c),
{
    let (view, at) = choose|view: nat, at: nat| #[trigger] leads(a, n, view, at, c);
    assert(b.accessors[n as int] == a.accessors[n as int]);
    assert(b.views[view as int] == a.views[view as int]);
    let part = b.binary.subrange(at as int, (at + c.bytes.len()) as int);
    assert(part =~= a.binary.subrange(at as int, (at + c.bytes.len()) as int)) by {
        assert forall|i: int| 0 <= i < a.binary.len() implies #[trigger] b.binary[i]
            == a.binary[i] by {
            assert(b.binary.subrange(0, a.binary.len() as int)[i] == b.binary[i]);
        }
    }
    assert(leads(b, n, view, at, c));
}

proof fn lemma_view(start: nat, length: nat)
    ensures
        ({
            let m = mesh_gltf::view_of(start, length);
            &&& value::member(m, "buffer"@) == Some(whole(0))
            &&& value::member(m, "byteOffset"@) == Some(whole(start as int))
            &&& value::member(m, "byteLength"@) == Some(whole(length as int))
        }),
{
    reveal_strlit("buffer");
    reveal_strlit("byteOffset");
    reveal_strlit("byteLength");
    assert("buffer"@.len() == 6 && "byteOffset"@.len() == 10 && "byteLength"@.len() == 10);
    assert("byteOffset"@[4] == 'O' && "byteLength"@[4] == 'L');
    codec_leaf_laws::lemma_triple(
        "buffer"@,
        whole(0),
        "byteOffset"@,
        whole(start as int),
        "byteLength"@,
        whole(length as int),
    );
    let list = seq![
        ("buffer"@, whole(0)),
        ("byteOffset"@, whole(start as int)),
        ("byteLength"@, whole(length as int)),
    ];
    let found = mesh_gltf::view_of(start, length)->Object_0;
    crate::object_laws::lemma_field(found, list, 0);
    crate::object_laws::lemma_field(found, list, 1);
    crate::object_laws::lemma_field(found, list, 2);
}

proof fn lemma_set<V>(e: Seq<(Seq<char>, V)>, key: Seq<char>, v: V, other: Seq<char>)
    requires
        entries::rising(e),
    ensures
        entries::rising(entries::put(e, key, v)),
        entries::find(entries::put(e, key, v), other) == (if other == key {
            Some(v)
        } else {
            entries::find(e, other)
        }),
{
    entries::law_put_rising(e, key, v);
    if other == key {
        entries::law_find_put(e, key, v);
    } else {
        entries::law_find_other(e, key, v, other);
    }
}

proof fn lemma_accessor_key(
    view: nat,
    component: u32,
    count: nat,
    kind: Seq<char>,
    bounds: Option<(Seq<u32>, Seq<u32>)>,
    key: Seq<char>,
)
    requires
        key == "bufferView"@ || key == "componentType"@ || key == "count"@ || key == "type"@,
    ensures
        value::member(mesh_gltf::accessor(view, component, count, kind, bounds), key) == Some(
            if key == "bufferView"@ {
                whole(view as int)
            } else if key == "componentType"@ {
                whole(component as int)
            } else if key == "count"@ {
                whole(count as int)
            } else {
                said(kind)
            },
        ),
{
    reveal_strlit("bufferView");
    reveal_strlit("componentType");
    reveal_strlit("count");
    reveal_strlit("type");
    reveal_strlit("min");
    reveal_strlit("max");
    assert("bufferView"@.len() == 10 && "componentType"@.len() == 13 && "count"@.len() == 5
        && "type"@.len() == 4 && "min"@.len() == 3 && "max"@.len() == 3);
    let none = Seq::<(Seq<char>, value::Model)>::empty();
    let e1 = entries::put(none, "bufferView"@, whole(view as int));
    let e2 = entries::put(e1, "componentType"@, whole(component as int));
    let e3 = entries::put(e2, "count"@, whole(count as int));
    let e4 = entries::put(e3, "type"@, said(kind));
    lemma_set(none, "bufferView"@, whole(view as int), key);
    lemma_set(e1, "componentType"@, whole(component as int), key);
    lemma_set(e2, "count"@, whole(count as int), key);
    lemma_set(e3, "type"@, said(kind), key);
    if let Some((minimum, maximum)) = bounds {
        lemma_set(e4, "min"@, mesh_gltf::singles(minimum), key);
        lemma_set(
            entries::put(e4, "min"@, mesh_gltf::singles(minimum)),
            "max"@,
            mesh_gltf::singles(maximum),
            key,
        );
    }
}

proof fn lemma_pushed(
    b: BuilderModel,
    bytes: Seq<u8>,
    component: u32,
    count: nat,
    kind: Seq<char>,
    bounds: Option<(Seq<u32>, Seq<u32>)>,
)
    ensures
        ({
            let after = mesh_gltf::pushed(b, bytes, component, count, kind, bounds);
            &&& grows(b, after)
            &&& after.accessors.len() == b.accessors.len() + 1
            &&& serves(
                after,
                b.accessors.len(),
                Content { bytes, component: component as nat, count, form: kind },
            )
        }),
{
    let after = mesh_gltf::pushed(b, bytes, component, count, kind, bounds);
    let start = glb::padded(b.binary, 0);
    lemma_accessor_key(b.views.len(), component, count, kind, bounds, "bufferView"@);
    lemma_accessor_key(b.views.len(), component, count, kind, bounds, "componentType"@);
    lemma_accessor_key(b.views.len(), component, count, kind, bounds, "count"@);
    lemma_accessor_key(b.views.len(), component, count, kind, bounds, "type"@);
    lemma_distinct();
    lemma_view(start.len(), bytes.len());
    assert(after.binary.subrange(0, b.binary.len() as int) =~= b.binary);
    assert(after.binary.subrange(start.len() as int, (start.len() + bytes.len()) as int)
        =~= bytes);
    assert(start.len() % 4 == 0);
    assert(leads(
        after,
        b.accessors.len(),
        b.views.len(),
        start.len(),
        Content { bytes, component: component as nat, count, form: kind },
    ));
}

proof fn lemma_distinct()
    ensures
        "bufferView"@ != "componentType"@,
        "bufferView"@ != "count"@,
        "bufferView"@ != "type"@,
        "componentType"@ != "count"@,
        "componentType"@ != "type"@,
        "count"@ != "type"@,
{
    reveal_strlit("bufferView");
    reveal_strlit("componentType");
    reveal_strlit("count");
    reveal_strlit("type");
    assert("bufferView"@.len() == 10 && "componentType"@.len() == 13 && "count"@.len() == 5
        && "type"@.len() == 4);
}

proof fn lemma_attribute(
    state: (BuilderModel, Seq<(Seq<char>, value::Model)>),
    name: Seq<char>,
    bits: Seq<u32>,
    width: nat,
    kind: Seq<char>,
    other: Seq<char>,
)
    requires
        entries::rising(state.1),
        entries::find(state.1, name) is None,
    ensures
        ({
            let after = mesh_gltf::with_attribute(state, name, bits, width, kind);
            &&& grows(state.0, after.0)
            &&& entries::rising(after.1)
            &&& has_floats(after.0, after.1, name, bits, width, kind)
            &&& other != name ==> entries::find(after.1, other) == entries::find(state.1, other)
        }),
{
    let after = mesh_gltf::with_attribute(state, name, bits, width, kind);
    if bits.len() == 0 {
        assert(state.0.binary.subrange(0, state.0.binary.len() as int) =~= state.0.binary);
    } else {
        let n = state.0.accessors.len();
        lemma_pushed(
            state.0,
            mesh_gltf::word_bytes(bits),
            mesh_gltf::GLTF_FLOAT,
            bits.len() / width,
            kind,
            None,
        );
        lemma_set(state.1, name, whole(n as int), name);
        lemma_set(state.1, name, whole(n as int), other);
        assert(serves(after.0, n, floats(bits, width, kind)));
    }
}

proof fn lemma_floats_kept(
    a: (BuilderModel, Seq<(Seq<char>, value::Model)>),
    b: (BuilderModel, Seq<(Seq<char>, value::Model)>),
    name: Seq<char>,
    bits: Seq<u32>,
    width: nat,
    kind: Seq<char>,
)
    requires
        grows(a.0, b.0),
        has_floats(a.0, a.1, name, bits, width, kind),
        entries::find(b.1, name) == entries::find(a.1, name),
    ensures
        has_floats(b.0, b.1, name, bits, width, kind),
{
    if bits.len() > 0 {
        let c = floats(bits, width, kind);
        let n = choose|n: nat|
            entries::find(a.1, name) == Some(whole(n as int)) && #[trigger] serves(a.0, n, c);
        lemma_kept(a.0, b.0, n, c);
    }
}

proof fn lemma_names()
    ensures
        "POSITION"@.len() == 8,
        "NORMAL"@.len() == 6,
        "TANGENT"@.len() == 7 && "TANGENT"@[0] == 'T',
        "COLOR_0"@.len() == 7 && "COLOR_0"@[0] == 'C',
        "TEXCOORD_0"@.len() == 10 && "TEXCOORD_0"@[9] == '0',
        "TEXCOORD_1"@.len() == 10 && "TEXCOORD_1"@[9] == '1',
{
    reveal_strlit("POSITION");
    reveal_strlit("NORMAL");
    reveal_strlit("TANGENT");
    reveal_strlit("COLOR_0");
    reveal_strlit("TEXCOORD_0");
    reveal_strlit("TEXCOORD_1");
}

proof fn lemma_first(b: BuilderModel, m: GltfMesh, other: Seq<char>)
    requires
        m.positions@.len() > 0,
    ensures
        ({
            let after = mesh_gltf::pushed_floats(
                b,
                m.positions@,
                3,
                "VEC3"@,
                Some((m.minimum@, m.maximum@)),
            );
            let attributes = entries::put(
                Seq::<(Seq<char>, value::Model)>::empty(),
                "POSITION"@,
                whole(b.accessors.len() as int),
            );
            &&& grows(b, after)
            &&& entries::rising(attributes)
            &&& has_floats(after, attributes, "POSITION"@, m.positions@, 3, "VEC3"@)
            &&& other != "POSITION"@ ==> entries::find(attributes, other) is None
        }),
{
    let none = Seq::<(Seq<char>, value::Model)>::empty();
    let n = b.accessors.len();
    lemma_pushed(
        b,
        mesh_gltf::word_bytes(m.positions@),
        mesh_gltf::GLTF_FLOAT,
        m.positions@.len() / 3,
        "VEC3"@,
        Some((m.minimum@, m.maximum@)),
    );
    lemma_set(none, "POSITION"@, whole(n as int), "POSITION"@);
    lemma_set(none, "POSITION"@, whole(n as int), other);
    let after = mesh_gltf::pushed_floats(
        b,
        m.positions@,
        3,
        "VEC3"@,
        Some((m.minimum@, m.maximum@)),
    );
    assert(serves(after, n, floats(m.positions@, 3, "VEC3"@)));
}

spec fn states(b: BuilderModel, m: GltfMesh, n: nat) -> (
    BuilderModel,
    Seq<(Seq<char>, value::Model)>,
)
    decreases n,
{
    if n == 0 {
        (
            mesh_gltf::pushed_floats(b, m.positions@, 3, "VEC3"@, Some((m.minimum@, m.maximum@))),
            entries::put(Seq::empty(), "POSITION"@, value::integer(b.accessors.len() as int)),
        )
    } else {
        mesh_gltf::with_attribute(
            states(b, m, (n - 1) as nat),
            name_at(n),
            bits_at(m, n),
            width_at(n),
            form_at(n),
        )
    }
}

spec fn name_at(n: nat) -> Seq<char> {
    if n == 0 {
        "POSITION"@
    } else if n == 1 {
        "NORMAL"@
    } else if n == 2 {
        "TANGENT"@
    } else if n == 3 {
        "COLOR_0"@
    } else if n == 4 {
        "TEXCOORD_0"@
    } else {
        "TEXCOORD_1"@
    }
}

spec fn bits_at(m: GltfMesh, n: nat) -> Seq<u32> {
    if n == 0 {
        m.positions@
    } else if n == 1 {
        m.normals@
    } else if n == 2 {
        m.tangents@
    } else if n == 3 {
        m.colors@
    } else if n == 4 {
        m.tex_coords@
    } else {
        m.tex_coords_1@
    }
}

spec fn width_at(n: nat) -> nat {
    if n <= 1 {
        3
    } else if n <= 3 {
        4
    } else {
        2
    }
}

spec fn form_at(n: nat) -> Seq<char> {
    if n <= 1 {
        "VEC3"@
    } else if n <= 3 {
        "VEC4"@
    } else {
        "VEC2"@
    }
}

proof fn lemma_states(b: BuilderModel, m: GltfMesh, n: nat, k: nat)
    requires
        m.positions@.len() > 0,
        n <= 5,
        k <= 5,
    ensures
        ({
            let s = states(b, m, n);
            &&& grows(b, s.0)
            &&& entries::rising(s.1)
            &&& k <= n ==> has_floats(
                s.0,
                s.1,
                name_at(k),
                bits_at(m, k),
                width_at(k),
                form_at(k),
            )
            &&& k > n ==> entries::find(s.1, name_at(k)) is None
        }),
    decreases n,
{
    lemma_names();
    if n == 0 {
        lemma_first(b, m, name_at(k));
    } else {
        let before = states(b, m, (n - 1) as nat);
        lemma_states(b, m, (n - 1) as nat, n);
        lemma_states(b, m, (n - 1) as nat, k);
        lemma_attribute(before, name_at(n), bits_at(m, n), width_at(n), form_at(n), name_at(k));
        let after = states(b, m, n);
        assert(grows(b, after.0)) by {
            assert(after.0.binary.subrange(0, b.binary.len() as int) =~= b.binary) by {
                assert forall|i: int| 0 <= i < b.binary.len() implies after.0.binary[i]
                    == b.binary[i] by {
                    let mid = before.0.binary;
                    assert(after.0.binary.subrange(0, mid.len() as int)[i] == mid[i]);
                    assert(mid.subrange(0, b.binary.len() as int)[i] == b.binary[i]);
                }
            }
            assert forall|i: int| 0 <= i < b.views.len() implies #[trigger] after.0.views[i]
                == b.views[i] by {
                assert(before.0.views[i] == b.views[i]);
            }
            assert forall|i: int| 0 <= i < b.accessors.len() implies #[trigger]
            after.0.accessors[i] == b.accessors[i] by {
                assert(before.0.accessors[i] == b.accessors[i]);
            }
        }
        if k < n {
            assert(name_at(k) != name_at(n));
            lemma_floats_kept(
                before,
                after,
                name_at(k),
                bits_at(m, k),
                width_at(k),
                form_at(k),
            );
        } else if k > n {
            assert(name_at(k) != name_at(n));
        }
    }
}

/// Each attribute of a mesh leads, through its accessor and its view, to the floats of
/// that attribute; one without floats is left out.
pub proof fn law_attributes(b: BuilderModel, m: GltfMesh)
    requires
        m.positions@.len() > 0,
    ensures
        ({
            let (after, attributes) = mesh_gltf::with_attributes(b, m);
            &&& has_floats(after, attributes, "POSITION"@, m.positions@, 3, "VEC3"@)
            &&& has_floats(after, attributes, "NORMAL"@, m.normals@, 3, "VEC3"@)
            &&& has_floats(after, attributes, "TANGENT"@, m.tangents@, 4, "VEC4"@)
            &&& has_floats(after, attributes, "COLOR_0"@, m.colors@, 4, "VEC4"@)
            &&& has_floats(after, attributes, "TEXCOORD_0"@, m.tex_coords@, 2, "VEC2"@)
            &&& has_floats(after, attributes, "TEXCOORD_1"@, m.tex_coords_1@, 2, "VEC2"@)
        }),
{
    reveal_with_fuel(states, 6);
    assert(states(b, m, 5) == mesh_gltf::with_attributes(b, m));
    lemma_states(b, m, 5, 0);
    lemma_states(b, m, 5, 1);
    lemma_states(b, m, 5, 2);
    lemma_states(b, m, 5, 3);
    lemma_states(b, m, 5, 4);
    lemma_states(b, m, 5, 5);
}

/// What a mesh adds to a document: the indices behind its attributes, which lead to its
/// own, a mesh with its name that names them, and a node that shows that mesh.
pub proof fn law_mesh_added(
    state: (BuilderModel, Seq<value::Model>, Seq<value::Model>),
    m: GltfMesh,
    index: nat,
)
    ensures
        ({
            let (after, meshes, nodes) = mesh_gltf::with_mesh(state, m, index);
            let (before, attributes) = mesh_gltf::with_attributes(state.0, m);
            let item = meshes.last();
            &&& serves(
                after,
                before.accessors.len(),
                (Content {
                    bytes: mesh_gltf::short_bytes(m.indices@),
                    component: 5123,
                    count: m.indices@.len(),
                    form: "SCALAR"@,
                }),
            )
            &&& meshes.len() == state.1.len() + 1
            &&& nodes.len() == state.2.len() + 1
            &&& value::member(item, "name"@) == Some(said(m.name@))
            &&& value::member(item, "primitives"@) matches Some(value::Model::Array(list))
                && list.len() == 1 && value::member(list[0], "attributes"@) == Some(
                value::Model::Object(attributes),
            ) && value::member(list[0], "indices"@) == Some(
                whole(before.accessors.len() as int),
            )
            &&& value::member(nodes.last(), "name"@) == Some(said(m.name@))
            &&& value::member(nodes.last(), "mesh"@) == Some(whole(index as int))
        }),
{
    reveal(mesh_gltf::with_mesh);
    let (before, attributes) = mesh_gltf::with_attributes(state.0, m);
    lemma_pushed(
        before,
        mesh_gltf::short_bytes(m.indices@),
        mesh_gltf::GLTF_UNSIGNED_SHORT,
        m.indices@.len(),
        "SCALAR"@,
        None,
    );
    reveal_strlit("attributes");
    reveal_strlit("indices");
    reveal_strlit("material");
    reveal_strlit("name");
    reveal_strlit("extras");
    reveal_strlit("primitives");
    reveal_strlit("mesh");
    assert("attributes"@.len() == 10 && "indices"@.len() == 7 && "material"@.len() == 8
        && "name"@.len() == 4 && "extras"@.len() == 6 && "primitives"@.len() == 10
        && "mesh"@.len() == 4);
    assert("name"@[0] == 'n' && "mesh"@[0] == 'm');
    let none = Seq::<(Seq<char>, value::Model)>::empty();
    let object = value::Model::Object(attributes);
    let n = whole(before.accessors.len() as int);
    let p1 = entries::put(none, "attributes"@, object);
    let p2 = entries::put(p1, "indices"@, n);
    let p3 = entries::put(p2, "material"@, whole(0));
    lemma_set(none, "attributes"@, object, "attributes"@);
    lemma_set(p1, "indices"@, n, "attributes"@);
    lemma_set(p1, "indices"@, n, "indices"@);
    lemma_set(p2, "material"@, whole(0), "attributes"@);
    lemma_set(p2, "material"@, whole(0), "indices"@);
    let name = said(m.name@);
    let extras = value::Model::Object(
        entries::put(
            none,
            "materialNames"@,
            mesh_gltf::text_values(crate::mesh::texts(m.material_names@)),
        ),
    );
    let list = value::Model::Array(seq![value::Model::Object(p3)]);
    let e1 = entries::put(none, "name"@, name);
    let e2 = entries::put(e1, "extras"@, extras);
    lemma_set(none, "name"@, name, "name"@);
    lemma_set(e1, "extras"@, extras, "name"@);
    lemma_set(e2, "primitives"@, list, "name"@);
    lemma_set(e2, "primitives"@, list, "primitives"@);
    lemma_set(e1, "mesh"@, whole(index as int), "name"@);
    lemma_set(e1, "mesh"@, whole(index as int), "mesh"@);
}

} // verus!
