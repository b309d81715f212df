//! Where an archive has its index, and how paths lead to its files.

use crate::archive;
use crate::archive::{ArchiveHeader, ArchiveSegment, EntryModel};
use crate::archive_writer;
use crate::codec_leaf_laws;
use crate::codec_leaf_laws::{eight, four, with_sign};
use crate::text;
use vstd::prelude::*;

verus! {

// ---------------------------------------------------------------------------
// The index
// ---------------------------------------------------------------------------

/// Whether a header is that of an archive: its numbers behind the four letters of the
/// format.
pub open spec fn is_header(b: Seq<u8>, h: ArchiveHeader) -> bool {
    &&& b.len() >= 44
    &&& b[0] == 'R' as u8 && b[1] == 'D' as u8 && b[2] == 'A' as u8 && b[3] == 'R' as u8
    &&& h.version == four(b, 4)
    &&& h.index_position == eight(b, 8)
    &&& h.index_size == four(b, 16)
    &&& h.debug_position == eight(b, 20)
    &&& h.debug_size == four(b, 28)
    &&& h.file_size == eight(b, 32)
}

/// Whether a segment stands at a place: its offset, its size as stored and its size.
pub open spec fn is_segment(b: Seq<u8>, at: nat, segment: ArchiveSegment) -> bool {
    &&& at + 16 <= b.len()
    &&& segment.offset == eight(b, at)
    &&& segment.compressed_size == four(b, at + 8)
    &&& segment.size == four(b, at + 12)
}

/// Whether an entry stands at a place.
pub open spec fn is_entry(b: Seq<u8>, at: nat, entry: EntryModel) -> bool {
    &&& at + 56 <= b.len()
    &&& entry.name_hash == eight(b, at)
    &&& entry.timestamp_filetime == with_sign(eight(b, at + 8), 0x8000_0000_0000_0000)
    &&& entry.inline_buffer_segments == four(b, at + 16)
    &&& entry.segments_start == four(b, at + 20)
    &&& entry.segments_end == four(b, at + 24)
    &&& entry.dependencies_start == four(b, at + 28)
    &&& entry.dependencies_end == four(b, at + 32)
    &&& entry.sha1.len() == 40
    &&& forall|k: int|
        0 <= k < 20 ==> #[trigger] entry.sha1[2 * k] == digit(b[at + 36 + k] / 16) && entry.sha1[2
            * k + 1] == digit(b[at + 36 + k] % 16)
}

/// A digit of a hexadecimal number, in lower case.
pub open spec fn digit(n: u8) -> char {
    "0123456789abcdef"@[n as int]
}

proof fn lemma_field(b: Seq<u8>, at: nat)
    ensures
        at + 4 <= b.len() ==> archive::field(b, at, 4) == four(b, at) && four(b, at)
            <= 0xffff_ffff,
        at + 8 <= b.len() ==> archive::field(b, at, 8) == eight(b, at) && eight(b, at)
            <= 0xffff_ffff_ffff_ffff,
{
    codec_leaf_laws::lemma_numbers(b, at);
}

proof fn lemma_hex(bytes: Seq<u8>)
    ensures
        archive::hex_text(bytes).len() == 2 * bytes.len(),
        forall|k: int|
            0 <= k < bytes.len() ==> #[trigger] archive::hex_text(bytes)[2 * k] == digit(
                bytes[k] / 16,
            ) && archive::hex_text(bytes)[2 * k + 1] == digit(bytes[k] % 16),
    decreases bytes.len(),
{
    if bytes.len() > 0 {
        let front = bytes.drop_last();
        lemma_hex(front);
        lemma_digit((bytes.last() / 16) as nat);
        lemma_digit((bytes.last() % 16) as nat);
        assert forall|k: int| 0 <= k < bytes.len() implies #[trigger] archive::hex_text(bytes)[2
            * k] == digit(bytes[k] / 16) && archive::hex_text(bytes)[2 * k + 1] == digit(
            bytes[k] % 16,
        ) by {
            if k < front.len() {
                assert(archive::hex_text(front)[2 * k] == digit(front[k] / 16));
            }
        }
    }
}

proof fn lemma_digit(n: nat)
    requires
        n < 16,
    ensures
        archive::hex_digit(n) == digit(n as u8),
{
    reveal_strlit("0123456789abcdef");
}

proof fn lemma_magic(b: Seq<u8>)
    requires
        b.len() >= 4,
        archive::field(b, 0, 4) == archive::ARCHIVE_MAGIC,
    ensures
        b[0] == 'R' as u8 && b[1] == 'D' as u8 && b[2] == 'A' as u8 && b[3] == 'R' as u8,
{
    lemma_field(b, 0);
}

proof fn lemma_header(b: Seq<u8>)
    requires
        b.len() >= 44,
        archive::field(b, 0, 4) == archive::ARCHIVE_MAGIC,
    ensures
        is_header(b, archive::header_of(b)),
{
    lemma_magic(b);
    lemma_field(b, 4);
    lemma_field(b, 8);
    lemma_field(b, 16);
    lemma_field(b, 20);
    lemma_field(b, 28);
    lemma_field(b, 32);
}

proof fn lemma_entry(b: Seq<u8>, at: nat, segments: Seq<ArchiveSegment>)
    requires
        at + 56 <= b.len(),
    ensures
        is_entry(b, at, archive::sized_entry(archive::raw_entry_at(b, at), segments)),
{
    lemma_field(b, at);
    lemma_field(b, at + 8);
    lemma_field(b, at + 16);
    lemma_field(b, at + 20);
    lemma_field(b, at + 24);
    lemma_field(b, at + 28);
    lemma_field(b, at + 32);
    let digest = b.subrange(at as int + 36, at as int + 56);
    lemma_hex(digest);
    let entry = archive::sized_entry(archive::raw_entry_at(b, at), segments);
    assert forall|k: int| 0 <= k < 20 implies #[trigger] entry.sha1[2 * k] == digit(
        b[at + 36 + k] / 16,
    ) && entry.sha1[2 * k + 1] == digit(b[at + 36 + k] % 16) by {
        assert(digest[k] == b[at + 36 + k]);
        assert(archive::hex_text(digest)[2 * k] == digit(digest[k] / 16));
    }
}

/// The sizes of some segments together.
pub open spec fn together(segments: Seq<ArchiveSegment>, start: nat, end: nat) -> (nat, nat)
    decreases end,
{
    if end <= start {
        (0, 0)
    } else {
        let (stored, plain) = together(segments, start, (end - 1) as nat);
        let last = segments[end - 1];
        (stored + last.compressed_size as nat, plain + last.size as nat)
    }
}

proof fn lemma_together(segments: Seq<ArchiveSegment>, start: nat, end: nat)
    requires
        start <= end <= segments.len(),
    ensures
        ({
            let selected = segments.subrange(start as int, end as int);
            together(segments, start, end) == (
                archive::compressed_total(selected),
                archive::size_total(selected),
            )
        }),
    decreases end,
{
    let selected = segments.subrange(start as int, end as int);
    if start < end {
        lemma_together(segments, start, (end - 1) as nat);
        assert(selected.drop_last() =~= segments.subrange(start as int, end - 1));
    }
}

proof fn lemma_good(
    raws: Seq<archive::RawModel>,
    segments: Seq<ArchiveSegment>,
    from: nat,
    i: nat,
)
    requires
        from <= i < raws.len(),
        archive::bad_entry(raws, segments, from) is None,
    ensures
        archive::range_ok(raws[i as int], segments),
    decreases i - from,
{
    if from < i {
        lemma_good(raws, segments, from + 1, i);
    }
}

/// The index of an archive stands where its header says, with its entries behind its
/// counts and its segments behind the entries. An entry has the sizes of its segments.
pub proof fn law_index_read(b: Seq<u8>)
    requires
        archive::archive(b) is Ok,
    ensures
        ({
            let a = archive::archive(b)->Ok_0;
            let at = eight(b, 8);
            &&& is_header(b, a.header)
            &&& a.file_table_offset == four(b, at)
            &&& a.file_table_size == four(b, at + 4)
            &&& a.crc == eight(b, at + 8)
            &&& a.entries.len() == four(b, at + 16)
            &&& a.segments.len() == four(b, at + 20)
            &&& a.segment_count == four(b, at + 20)
            &&& a.dependency_count == four(b, at + 24)
            &&& forall|i: nat|
                i < a.entries.len() ==> is_entry(
                    b,
                    at + 28 + 56 * i,
                    #[trigger] a.entries[i as int],
                )
            &&& forall|i: nat|
                i < a.segments.len() ==> is_segment(
                    b,
                    at + 28 + 56 * a.entries.len() + 16 * i,
                    #[trigger] a.segments[i as int],
                )
            &&& forall|i: nat|
                i < a.entries.len() ==> {
                    let entry = #[trigger] a.entries[i as int];
                    &&& entry.segments_start <= entry.segments_end <= a.segments.len()
                    &&& (entry.compressed_size, entry.size) == together(
                        a.segments,
                        entry.segments_start as nat,
                        entry.segments_end as nat,
                    )
                }
        }),
{
    lemma_header(b);
    let a = archive::archive(b)->Ok_0;
    let at = eight(b, 8);
    lemma_field(b, 8);
    lemma_field(b, at);
    lemma_field(b, at + 4);
    lemma_field(b, at + 8);
    lemma_field(b, at + 16);
    lemma_field(b, at + 20);
    lemma_field(b, at + 24);
    let entries = four(b, at + 16);
    let raws = archive::raw_entries(b, at + 28, entries);
    let segments = archive::segments_from(b, at + 28 + 56 * entries, four(b, at + 20));
    assert(a.entries == archive::sized_entries(raws, segments));
    assert(a.segments == segments);
    assert forall|i: nat| i < a.entries.len() implies is_entry(
        b,
        at + 28 + 56 * i,
        #[trigger] a.entries[i as int],
    ) by {
        lemma_entry(b, at + 28 + 56 * i, segments);
    }
    assert forall|i: nat| i < a.segments.len() implies is_segment(
        b,
        at + 28 + 56 * a.entries.len() + 16 * i,
        #[trigger] a.segments[i as int],
    ) by {
        let place = at + 28 + 56 * entries + 16 * i;
        lemma_field(b, place);
        lemma_field(b, place + 8);
        lemma_field(b, place + 12);
    }
    assert forall|i: nat| i < a.entries.len() implies {
        let entry = #[trigger] a.entries[i as int];
        &&& entry.segments_start <= entry.segments_end <= a.segments.len()
        &&& (entry.compressed_size, entry.size) == together(
            a.segments,
            entry.segments_start as nat,
            entry.segments_end as nat,
        )
    } by {
        lemma_good(raws, segments, 0, i);
        let raw = raws[i as int];
        lemma_together(segments, raw.segments_start as nat, raw.segments_end as nat);
    }
}

// ---------------------------------------------------------------------------
// Paths
// ---------------------------------------------------------------------------

/// A path leads to the same file with either slash in any of its places.
pub proof fn law_slashes(path: Seq<char>, other: Seq<char>)
    requires
        path.len() == other.len(),
        forall|i: int|
            0 <= i < path.len() ==> #[trigger] path[i] == other[i] || (path[i] == '/' && other[i]
                == '\\') || (path[i] == '\\' && other[i] == '/'),
    ensures
        archive::depot_hash(path) == archive::depot_hash(other),
{
    lemma_start(path, other);
    let a = archive::trimmed_start(path);
    let b = archive::trimmed_start(other);
    lemma_end(a, b);
    let x = archive::trimmed_end(a);
    let y = archive::trimmed_end(b);
    assert(text::replaced(x, '/', '\\') =~= text::replaced(y, '/', '\\'));
}

spec fn alike(path: Seq<char>, other: Seq<char>) -> bool {
    &&& path.len() == other.len()
    &&& forall|i: int|
        0 <= i < path.len() ==> #[trigger] path[i] == other[i] || (path[i] == '/' && other[i]
            == '\\') || (path[i] == '\\' && other[i] == '/')
}

proof fn lemma_start(path: Seq<char>, other: Seq<char>)
    requires
        alike(path, other),
    ensures
        alike(archive::trimmed_start(path), archive::trimmed_start(other)),
    decreases path.len(),
{
    if path.len() > 0 {
        assert(path[0] == path[0]);
        if archive::is_trimmed(path[0]) {
            let p = path.drop_first();
            let q = other.drop_first();
            assert forall|i: int| 0 <= i < p.len() implies #[trigger] p[i] == q[i] || (p[i] == '/'
                && q[i] == '\\') || (p[i] == '\\' && q[i] == '/') by {
                assert(path[i + 1] == p[i]);
            }
            lemma_start(p, q);
        }
    }
}

proof fn lemma_end(path: Seq<char>, other: Seq<char>)
    requires
        alike(path, other),
    ensures
        alike(archive::trimmed_end(path), archive::trimmed_end(other)),
    decreases path.len(),
{
    if path.len() > 0 {
        assert(path[path.len() - 1] == path.last());
        if archive::is_trimmed(path.last()) {
            let p = path.drop_last();
            let q = other.drop_last();
            assert forall|i: int| 0 <= i < p.len() implies #[trigger] p[i] == q[i] || (p[i] == '/'
                && q[i] == '\\') || (p[i] == '\\' && q[i] == '/') by {
                assert(path[i] == p[i]);
            }
            lemma_end(p, q);
        }
    }
}

/// Slashes, quotes, blanks and ends of lines around a path do not count.
pub proof fn law_around(path: Seq<char>, c: char)
    requires
        c == '\'' || c == '"' || c == '/' || c == '\\' || c == ' ' || c == '\n' || c == '\r',
    ensures
        archive::depot_hash(seq![c] + path) == archive::depot_hash(path),
        archive::depot_hash(path.push(c)) == archive::depot_hash(path),
{
    assert((seq![c] + path).drop_first() =~= path);
    lemma_behind(path, c);
}

proof fn lemma_behind(path: Seq<char>, c: char)
    requires
        archive::is_trimmed(c),
    ensures
        archive::trimmed_end(archive::trimmed_start(path.push(c))) == archive::trimmed_end(
            archive::trimmed_start(path),
        ),
    decreases path.len(),
{
    let more = path.push(c);
    if path.len() > 0 && archive::is_trimmed(path[0]) {
        assert(more.drop_first() =~= path.drop_first().push(c));
        lemma_behind(path.drop_first(), c);
    } else if path.len() == 0 {
        assert(more.drop_first() =~= path);
    } else {
        assert(more.drop_last() =~= path);
    }
}

/// The hash of a path takes in one byte after the other: it is combined with the byte
/// and multiplied by the prime. A backslash behind another does not count.
pub proof fn law_hash_step(bytes: Seq<u8>, byte: u8)
    ensures
        archive::path_hash(Seq::empty()) == 0xcbf2_9ce4_8422_2325u64,
        byte == 92 && bytes.len() > 0 && bytes.last() == 92 ==> archive::path_hash(
            bytes.push(byte),
        ) == archive::path_hash(bytes),
        !(byte == 92 && bytes.len() > 0 && bytes.last() == 92) ==> archive::path_hash(
            bytes.push(byte),
        ) as nat == ((archive::path_hash(bytes) ^ (byte as u64)) as nat * 0x0000_0100_0000_01b3)
            % 0x1_0000_0000_0000_0000,
{
    assert(bytes.push(byte).drop_last() =~= bytes);
}

/// What fills a page is less than a page, and the page is then full.
pub proof fn law_page(position: nat)
    ensures
        archive_writer::page_padding(position) < 4096,
        (position + archive_writer::page_padding(position)) % 4096 == 0,
{
}

} // verus!
