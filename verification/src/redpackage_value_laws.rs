//! Values of a package are written so that they are read back.

use crate::binary;
use crate::number_text;
use crate::red_types;
use crate::redpackage;
use crate::redpackage::Fault;
use crate::redpackage_encoder;
use crate::redpackage_expansion_laws;
use crate::redpackage_expansion_laws::{avoids, plain, shows};
use crate::redpackage_json;
use crate::redpackage_kept_laws;
use crate::redpackage_kept_laws::fits;
use crate::redpackage_layout_laws;
use crate::redpackage_layout_laws::{alike, Move};
use crate::redpackage_leaf_laws;
use crate::redpackage_pools;
use crate::redpackage_pools::{Source, State};
use crate::redpackage_reader;
use crate::redpackage_reader::Package;
use crate::redpackage_state_laws;
use crate::redpackage_state_laws::{kept, lookup, Scene};
use crate::sequence;
use crate::value;
use crate::value::Model;
use vstd::prelude::*;
use vstd::utf8;

verus! {

/// What stands in one package stands in the other too.
pub proof fn lemma_moves(p: Package, q: Package, a: nat, b: nat, hi: nat)
    requires
        alike(p, q),
        a <= hi <= p.bytes.len(),
        sequence::stands(q.bytes, b, p.bytes.subrange(a as int, hi as int)),
    ensures
        redpackage_layout_laws::moves(Move { p, q, a, b, hi }),
{
    let part = p.bytes.subrange(a as int, hi as int);
    assert forall|k: int| a <= k < hi implies q.bytes[k - a + b] == #[trigger] p.bytes[k] by {
        sequence::lemma_stands_index(q.bytes, b, part, k - a);
        assert(part[k - a] == p.bytes[k]);
    }
}

/// A number is written as it was.
proof fn lemma_kept_number(
    p: Package,
    q: Package,
    t: Seq<char>,
    start: nat,
    limit: nat,
    m: Model,
    e: nat,
    at: nat,
    written: Seq<u8>,
)
    requires
        alike(p, q),
        redpackage_reader::numeric(t),
        redpackage_reader::leaf(p, t, start, limit) == Ok::<(Model, nat), Fault>((m, e)),
        red_types::type_size(t) is Some,
        limit == start + red_types::type_size(t)->0,
        redpackage_json::number_bytes(t, m, start) == Ok::<Seq<u8>, Fault>(written),
        sequence::stands(q.bytes, at, written),
    ensures
        e == limit,
        written.len() == red_types::type_size(t)->0,
        written.len() > 0,
        redpackage_reader::leaf(q, t, at, at + written.len()) == Ok::<(Model, nat), Fault>(
            (m, at + written.len()),
        ),
        plain(m),
{
    redpackage_layout_laws::lemma_number_size(t);
    redpackage_leaf_laws::law_number_kept(p, t, start, limit);
    let width = redpackage_leaf_laws::width(t);
    lemma_moves(p, q, start, at, start + width);
    let v = Move { p, q, a: start, b: at, hi: start + width };
    redpackage_layout_laws::lemma_moved_leaf(v, t, start, limit, at + width, m, e);
}

/// What has to hold of the limits that a plain value is read and written with.
pub open spec fn leaf_limits(
    t: Seq<char>,
    start: nat,
    lr: nat,
    lw: nat,
    e: nat,
    at: nat,
    length: nat,
    lq: nat,
) -> bool {
    match red_types::type_size(t) {
        Some(size) => lr == start + size && lq == at + size,
        None => e <= lw <= lr && at + length <= lq && (e == lr ==> lq == at + length),
    }
}

/// A plain value is written so that it is read back.
pub proof fn lemma_kept_leaf(
    sc: Scene,
    source: Source,
    state: State,
    q: Package,
    t: Seq<char>,
    start: nat,
    lr: nat,
    lw: nat,
    x: Model,
    path: Seq<nat>,
    m: Model,
    e: nat,
    at: nat,
    lq: nat,
    written: Seq<u8>,
    behind: nat,
    after: State,
)
    requires
        fits(sc, source, q),
        kept(sc, state),
        path.len() >= 1,
        lookup(sc.values, path) == Some(x),
        shows(x, m, sc.flat, sc.base),
        avoids(m, sc.roots),
        redpackage_reader::leaf(sc.package, t, start, lr) == Ok::<(Model, nat), Fault>((m, e)),
        redpackage_layout_laws::leaf_in_order(sc.package, t, start, lr),
        redpackage_encoder::written_leaf(source, state, t, x, path, start, lw) == Ok::<
            (Seq<u8>, nat, State),
            Fault,
        >((written, behind, after)),
        leaf_limits(t, start, lr, lw, e, at, written.len(), lq),
        sequence::stands(q.bytes, at, written),
    ensures
        kept(sc, after),
        written.len() > 0,
        lw >= e ==> behind >= e,
        redpackage_reader::leaf(q, t, at, lq) == Ok::<(Model, nat), Fault>(
            (m, at + written.len()),
        ),
{
    let p = sc.package;
    binary::lemma_byte_ranges();
    if redpackage_reader::numeric(t) {
        redpackage_layout_laws::lemma_number_size(t);
        lemma_plain_number(p, t, start, lr, m, e);
        redpackage_expansion_laws::lemma_plain(x, m, sc.flat, sc.base);
        lemma_kept_number(p, q, t, start, lr, m, e, at, written);
    } else if t == "CName"@ {
        let index = redpackage::number(p.bytes, start, 2)->Ok_0;
        let name = p.names[index as int];
        redpackage_kept_laws::lemma_stored("CName"@, "string"@, name);
        redpackage_expansion_laws::lemma_plain(x, m, sc.flat, sc.base);
        binary::lemma_le_bytes_len(redpackage_pools::with_name(state, name)->Ok_0.0, 2);
        redpackage_kept_laws::lemma_written_name(sc, state, q, index, at);
    } else if t == "String"@ || t == "CString"@ {
        let content = redpackage_reader::prefixed_text(p.bytes, start)->Ok_0.0;
        binary::lemma_le_bytes_len(utf8::encode_utf8(content).len(), 2);
        redpackage_leaf_laws::law_text_read(q.bytes, at, content);
    } else if t == "NodeRef"@ {
        let content = redpackage_reader::signed_text(p.bytes, start)->Ok_0.0;
        redpackage_kept_laws::lemma_stored("NodeRef"@, "string"@, content);
        redpackage_expansion_laws::lemma_plain(x, m, sc.flat, sc.base);
        binary::lemma_le_bytes_len(utf8::encode_utf8(content).len(), 2);
        redpackage_leaf_laws::law_text_read(q.bytes, at, content);
    } else if t == "TweakDBID"@ {
        if p.version == 4 {
            let n = redpackage::number(p.bytes, start, 8)->Ok_0;
            binary::law_write_read(p.bytes.subrange(start as int, (start + 8) as int));
            redpackage_kept_laws::lemma_stored(
                "TweakDBID"@,
                "uint64"@,
                number_text::decimal(n),
            );
            redpackage_expansion_laws::lemma_plain(x, m, sc.flat, sc.base);
            number_text::law_parse_decimal(n, u64::MAX as nat);
            binary::lemma_le_bytes_len(n, 8);
            binary::lemma_number_stands(q.bytes, at, n, 8);
        } else {
            let content = redpackage_reader::signed_text(p.bytes, start)->Ok_0.0;
            redpackage_kept_laws::lemma_stored("TweakDBID"@, "string"@, content);
            redpackage_expansion_laws::lemma_plain(x, m, sc.flat, sc.base);
            binary::lemma_le_bytes_len(utf8::encode_utf8(content).len(), 2);
            redpackage_leaf_laws::law_text_read(q.bytes, at, content);
        }
    } else if t == "LocalizationString"@ {
        let n = redpackage::number(p.bytes, start, 8)->Ok_0;
        let content = redpackage_reader::prefixed_text(p.bytes, start + 8)->Ok_0.0;
        binary::law_write_read(p.bytes.subrange(start as int, (start + 8) as int));
        redpackage_kept_laws::lemma_localized(number_text::decimal(n), content);
        redpackage_expansion_laws::lemma_plain(x, m, sc.flat, sc.base);
        number_text::law_parse_decimal(n, u64::MAX as nat);
        binary::lemma_le_bytes_len(n, 8);
        let head = binary::le_bytes(utf8::encode_utf8(content).len(), 2);
        binary::lemma_le_bytes_len(utf8::encode_utf8(content).len(), 2);
        sequence::lemma_stands_split(
            q.bytes,
            at,
            binary::le_bytes(n, 8),
            head + utf8::encode_utf8(content),
        );
        binary::lemma_number_stands(q.bytes, at, n, 8);
        redpackage_leaf_laws::law_text_read(q.bytes, at + 8, content);
    } else if t == "DataBuffer"@ {
        lemma_buffer_plain(p, start, lr, m, e);
        redpackage_expansion_laws::lemma_plain(x, m, sc.flat, sc.base);
        lemma_no_size(t);
        redpackage_kept_laws::lemma_kept_buffer(
            sc,
            source,
            state,
            q,
            start,
            lr,
            m,
            e,
            at,
            lq,
            written,
            behind,
            after,
        );
    } else if red_types::is_handle(t) {
        let (n, end) = redpackage_reader::handle_pointer(p, start)->Ok_0;
        redpackage_kept_laws::lemma_kept_handle(
            sc,
            source,
            state,
            q,
            x,
            path,
            start,
            n,
            end,
            at,
            written,
            behind,
            after,
        );
        let (n2, end2) = redpackage_reader::handle_pointer(q, at)->Ok_0;
        assert((n < 0) == (n2 < 0)) by {
            assert(redpackage_state_laws::handle_value(n) is Null == (n < 0));
            assert(redpackage_state_laws::handle_value(n2) is Null == (n2 < 0));
        }
    } else if red_types::is_reference(t) {
        let index = redpackage::short(p.bytes, start)->Ok_0;
        lemma_reference_plain(p, index, start, m);
        redpackage_expansion_laws::lemma_plain(x, m, sc.flat, sc.base);
        redpackage_kept_laws::lemma_kept_reference(
            sc,
            source,
            state,
            q,
            start,
            index,
            m,
            at,
            written,
            behind,
            after,
        );
    } else {
        redpackage_expansion_laws::lemma_plain(x, m, sc.flat, sc.base);
        lemma_other_limit(p, t, start, lr, m, e);
        assert(lw == lr);
        redpackage_kept_laws::lemma_kept_other(
            sc,
            state,
            q,
            t,
            start,
            lr,
            m,
            at,
            written,
            behind,
            after,
        );
    }
}

proof fn lemma_other_limit(p: Package, t: Seq<char>, start: nat, limit: nat, m: Model, e: nat)
    requires
        redpackage_layout_laws::is_other(t),
        redpackage_reader::other_leaf(p, t, start, limit) == Ok::<(Model, nat), Fault>((m, e)),
        red_types::type_size(t) is Some ==> limit == start + red_types::type_size(t)->0,
    ensures
        e == limit,
        red_types::type_size(t) is None,
{
}

proof fn lemma_no_size(t: Seq<char>)
    requires
        t == "DataBuffer"@ || t == "LocalizationString"@,
    ensures
        red_types::type_size(t) is None || !redpackage_reader::named(t),
{
    reveal_strlit("DataBuffer");
    reveal_strlit("LocalizationString");
    reveal_strlit("Bool");
    reveal_strlit("Int8");
    reveal_strlit("Uint8");
    reveal_strlit("Int16");
    reveal_strlit("Uint16");
    reveal_strlit("CName");
    reveal_strlit("Int32");
    reveal_strlit("Uint32");
    reveal_strlit("Float");
    reveal_strlit("Int64");
    reveal_strlit("Uint64");
    reveal_strlit("Double");
    reveal_strlit("CRUID");
    reveal_strlit("CDateTime");
    reveal_strlit("TweakDBID");
    reveal_strlit("gamedataLocKeyWrapper");
    reveal_strlit("CGUID");
    reveal_strlit("handle:");
    reveal_strlit("whandle:");
    reveal_strlit("rRef:");
    reveal_strlit("raRef:");
    assert("DataBuffer"@.len() == 10 && "LocalizationString"@.len() == 18);
    assert("DataBuffer"@[0] == 'D' && "LocalizationString"@[0] == 'L');
    assert(t.subrange(0, 7)[0] == t[0]);
    assert(t.subrange(0, 8)[0] == t[0]);
    assert(t.subrange(0, 5)[0] == t[0]);
    assert(t.subrange(0, 6)[0] == t[0]);
    assert("handle:"@[0] == 'h' && "whandle:"@[0] == 'w' && "rRef:"@[0] == 'r' && "raRef:"@[0]
        == 'r');
}

proof fn lemma_plain_number(p: Package, t: Seq<char>, start: nat, limit: nat, m: Model, e: nat)
    requires
        redpackage_reader::numeric(t),
        redpackage_reader::leaf(p, t, start, limit) == Ok::<(Model, nat), Fault>((m, e)),
    ensures
        plain(m),
{
}

proof fn lemma_buffer_plain(p: Package, start: nat, limit: nat, m: Model, e: nat)
    requires
        redpackage_reader::buffer_leaf(p, start, limit) == Ok::<(Model, nat), Fault>((m, e)),
    ensures
        plain(m),
{
    let length = redpackage::number(p.bytes, start, 4)->Ok_0;
    redpackage_kept_laws::lemma_inner_buffer(""@);
    redpackage_kept_laws::lemma_inner_buffer(
        crate::text::base64_text(
            p.bytes.subrange(start as int + 4, (start + 4 + length) as int),
        ),
    );
}

proof fn lemma_reference_plain(p: Package, index: int, start: nat, m: Model)
    requires
        redpackage_reader::import_reference(p, index, start) == Ok::<Model, Fault>(m),
    ensures
        plain(m),
{
    if index < 0 {
        redpackage_kept_laws::lemma_reference("uint64"@, "0"@, "Default"@);
    } else {
        let import = p.imports[index];
        let flags = if import.soft {
            "Soft"@
        } else {
            "Default"@
        };
        let storage = match import.path {
            redpackage::PathModel::Text(_) => "string"@,
            redpackage::PathModel::Hash(_) => "uint64"@,
        };
        redpackage_kept_laws::lemma_reference(
            storage,
            redpackage_state_laws::shown_path(import),
            flags,
        );
    }
}

} // verus!
