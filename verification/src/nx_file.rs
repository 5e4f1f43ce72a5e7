//! The container file: header, string table, node table, and navigation.
//!
//! A container is parsed from its raw bytes in one pass: the fixed header
//! (magic tag "PKG4" plus eight little-endian count/offset fields), then the
//! string table (an indirection table of absolute offsets to length-prefixed
//! UTF-8 entries), then the flat node table (20-byte records). The whole
//! layout semantics is captured by [`open_spec`], and [`NXFile::new`] is
//! proved to return exactly what that specification says, for every input.

use vstd::prelude::*;
use vstd::utf8::{valid_utf8, decode_utf8};
use crate::error::NXError;
use crate::layout::{le16, le32, le64};
use crate::layout;
use crate::nx_node::{
    NXNode, NXNodeData, NXNodeType, NXVectorData, NXBitmapData, NXAudioData, NodeView,
    data_spec, string_at, type_from_tag,
};
use crate::text;

verus! {

/// The fixed 52-byte file header: the magic tag followed by four
/// count/offset pairs. Offsets are absolute byte positions in the file.
#[derive(Clone, Copy, Debug, PartialEq, Eq, Structural)]
pub struct NXFileHeader {
    pub magic: u32,
    pub node_count: u32,
    pub node_offset: u64,
    pub string_count: u32,
    pub string_offset: u64,
    pub bitmap_count: u32,
    pub bitmap_offset: u64,
    pub audio_count: u32,
    pub audio_offset: u64,
}

/// Whether the first four bytes are the magic tag "PKG4".
pub open spec fn magic_ok(b: Seq<u8>) -> bool
    recommends
        b.len() >= 4,
{
    b[0] == 0x50u8 && b[1] == 0x4bu8 && b[2] == 0x47u8 && b[3] == 0x34u8
}

/// The header fields denoted by the first 52 bytes.
pub open spec fn header_spec(b: Seq<u8>) -> NXFileHeader
    recommends
        b.len() >= 52,
{
    NXFileHeader {
        magic: le32(b, 0) as u32,
        node_count: le32(b, 4) as u32,
        node_offset: le64(b, 8) as u64,
        string_count: le32(b, 16) as u32,
        string_offset: le64(b, 20) as u64,
        bitmap_count: le32(b, 28) as u32,
        bitmap_offset: le64(b, 32) as u64,
        audio_count: le32(b, 40) as u32,
        audio_offset: le64(b, 44) as u64,
    }
}

/// The character sequences of a vector of strings.
pub open spec fn strs_view(v: Seq<String>) -> Seq<Seq<char>> {
    v.map_values(|s: String| s@)
}

/// The string denoted by the indirection slot at byte offset `slot`:
/// the slot holds an absolute offset to a 16-bit length followed by that
/// many bytes of UTF-8.
pub open spec fn string_entry_spec(b: Seq<u8>, slot: int) -> Result<Seq<char>, NXError> {
    if slot + 8 > b.len() {
        Err(NXError::IoError)
    } else {
        let off = le64(b, slot);
        if off + 2 > b.len() {
            Err(NXError::IoError)
        } else {
            let n = le16(b, off);
            if off + 2 + n > b.len() {
                Err(NXError::IoError)
            } else {
                let sb = b.subrange(off + 2, off + 2 + n);
                if valid_utf8(sb) {
                    Ok(decode_utf8(sb))
                } else {
                    Err(NXError::InvalidUtf8)
                }
            }
        }
    }
}

/// The first `count` entries of the string table whose indirection table
/// starts at `table`, in index order; the first failing entry decides the
/// error.
pub open spec fn strings_spec(b: Seq<u8>, table: int, count: int) -> Result<
    Seq<Seq<char>>,
    NXError,
>
    decreases count,
{
    if count <= 0 {
        Ok(Seq::empty())
    } else {
        match strings_spec(b, table, count - 1) {
            Err(e) => Err(e),
            Ok(pre) => match string_entry_spec(b, table + 8 * (count - 1)) {
                Err(e) => Err(e),
                Ok(s) => Ok(pre.push(s)),
            },
        }
    }
}

/// The node denoted by the 20-byte record at byte offset `off`:
/// a 32-bit name id, 32-bit first-child index, 16-bit child count,
/// 16-bit type tag, and the 8-byte inline payload.
pub open spec fn node_record_spec(b: Seq<u8>, off: int, strings: Seq<Seq<char>>) -> Result<
    NodeView,
    NXError,
> {
    if off + 20 > b.len() {
        Err(NXError::IoError)
    } else {
        let ntype = type_from_tag(le16(b, off + 10));
        Ok(
            NodeView {
                name_id: le32(b, off) as u32,
                name: string_at(strings, le32(b, off)),
                child: le32(b, off + 4) as u32,
                n_child: le16(b, off + 8) as u16,
                ntype: ntype,
                data: data_spec(ntype, b.subrange(off + 12, off + 20), strings),
            },
        )
    }
}

/// The first `count` records of the node table starting at `table`, in
/// on-disk order.
pub open spec fn nodes_spec(
    b: Seq<u8>,
    table: int,
    strings: Seq<Seq<char>>,
    count: int,
) -> Result<Seq<NodeView>, NXError>
    decreases count,
{
    if count <= 0 {
        Ok(Seq::empty())
    } else {
        match nodes_spec(b, table, strings, count - 1) {
            Err(e) => Err(e),
            Ok(pre) => match node_record_spec(b, table + 20 * (count - 1), strings) {
                Err(e) => Err(e),
                Ok(n) => Ok(pre.push(n)),
            },
        }
    }
}

/// Mathematical model of a loaded container.
#[verifier::ext_equal]
pub struct FileView {
    pub header: NXFileHeader,
    pub strings: Seq<Seq<char>>,
    pub nodes: Seq<NodeView>,
}

/// What opening a byte image yields: the loaded container, or the first
/// error of the single load pass (magic check, header, string table, node
/// table). Loading is all or nothing.
pub open spec fn open_spec(b: Seq<u8>) -> Result<FileView, NXError> {
    if b.len() < 4 {
        Err(NXError::IoError)
    } else if !magic_ok(b) {
        Err(NXError::BadMagic)
    } else if b.len() < 52 {
        Err(NXError::IoError)
    } else {
        let h = header_spec(b);
        match strings_spec(b, h.string_offset as int, h.string_count as int) {
            Err(e) => Err(e),
            Ok(strings) => match nodes_spec(b, h.node_offset as int, strings, h.node_count as int) {
                Err(e) => Err(e),
                Ok(nodes) => Ok(FileView { header: h, strings, nodes }),
            },
        }
    }
}

/// The immutable tables of a loaded container.
pub struct NXFileData {
    pub header: NXFileHeader,
    pub strings: Vec<String>,
}

/// A loaded container: header, string table, and the flat node array.
/// Node index 0, when present, is the implicit root.
pub struct NXFile {
    pub file_data: NXFileData,
    pub nodes: Vec<NXNode>,
}

impl View for NXFile {
    type V = FileView;

    open spec fn view(&self) -> FileView {
        FileView {
            header: self.file_data.header,
            strings: strs_view(self.file_data.strings@),
            nodes: self.nodes@.map_values(|n: NXNode| n@),
        }
    }
}

/// Propagating an entry error: once entry `i` is the first to fail, the
/// whole table fails with that entry's error.
proof fn lemma_strings_spec_error(b: Seq<u8>, table: int, i: int, count: int)
    requires
        0 <= i < count,
        strings_spec(b, table, i) is Ok,
        string_entry_spec(b, table + 8 * i) is Err,
    ensures
        strings_spec(b, table, count) == Err::<Seq<Seq<char>>, NXError>(
            string_entry_spec(b, table + 8 * i)->Err_0,
        ),
    decreases count,
{
    if count > i + 1 {
        lemma_strings_spec_error(b, table, i, count - 1);
    }
}

/// Propagating a record error across the node table.
proof fn lemma_nodes_spec_error(b: Seq<u8>, table: int, strings: Seq<Seq<char>>, i: int, count: int)
    requires
        0 <= i < count,
        nodes_spec(b, table, strings, i) is Ok,
        node_record_spec(b, table + 20 * i, strings) is Err,
    ensures
        nodes_spec(b, table, strings, count) == Err::<Seq<NodeView>, NXError>(
            node_record_spec(b, table + 20 * i, strings)->Err_0,
        ),
    decreases count,
{
    if count > i + 1 {
        lemma_nodes_spec_error(b, table, strings, i, count - 1);
    }
}

/// The string with the given id, or "" when the id is out of range.
fn get_string(strings: &Vec<String>, string_id: u32) -> (r: String)
    ensures
        r@ == string_at(strs_view(strings@), string_id as int),
{
    if (string_id as usize) < strings.len() {
        strings[string_id as usize].clone()
    } else {
        String::new()
    }
}

/// Decodes an 8-byte inline payload under the given node type.
fn create_node_data(strings: &Vec<String>, ntype: NXNodeType, data: &[u8; 8]) -> (r: NXNodeData)
    ensures
        r@ == data_spec(ntype, data@, strs_view(strings@)),
{
    match ntype {
        NXNodeType::Empty => NXNodeData::Empty,
        NXNodeType::Int64 => NXNodeData::Int64(layout::read_i64(data.as_slice(), 0)),
        NXNodeType::Double => NXNodeData::Double(layout::read_u64(data.as_slice(), 0)),
        NXNodeType::Text => NXNodeData::Text(
            get_string(strings, layout::read_u32(data.as_slice(), 0)),
        ),
        NXNodeType::Vector => NXNodeData::Vector(NXVectorData::new(data)),
        NXNodeType::Bitmap => NXNodeData::Bitmap(NXBitmapData::new(data)),
        NXNodeType::Audio => NXNodeData::Audio(NXAudioData::new(data)),
    }
}

/// Loads the string table: for each index, follow the indirection slot,
/// read the 16-bit length, and decode that many bytes as UTF-8.
#[verifier::rlimit(50)]
fn load_tables(data: &Vec<u8>, header: &NXFileHeader) -> (r: Result<Vec<String>, NXError>)
    ensures
        match r {
            Ok(v) => strings_spec(data@, header.string_offset as int, header.string_count as int)
                == Ok::<_, NXError>(strs_view(v@)),
            Err(e) => strings_spec(data@, header.string_offset as int, header.string_count as int)
                == Err::<Seq<Seq<char>>, NXError>(e),
        },
{
    let len = data.len();
    let table = header.string_offset;
    let count = header.string_count;
    let mut strings: Vec<String> = Vec::new();
    let mut i: u32 = 0;
    proof {
        assert(strs_view(strings@) =~= Seq::<Seq<char>>::empty());
    }
    while i < count
        invariant
            0 <= i <= count,
            len == data@.len(),
            table == header.string_offset,
            count == header.string_count,
            strings@.len() == i,
            strings_spec(data@, table as int, i as int) == Ok::<_, NXError>(strs_view(strings@)),
        decreases count - i,
    {
        let ghost slot_spec: int = table as int + 8 * (i as int);
        let slot: u128 = table as u128 + 8u128 * (i as u128);
        if slot + 8 > len as u128 {
            proof {
                assert(string_entry_spec(data@, slot_spec) == Err::<Seq<char>, NXError>(
                    NXError::IoError,
                ));
                lemma_strings_spec_error(data@, table as int, i as int, count as int);
                assert(strings_spec(data@, table as int, count as int) == Err::<
                    Seq<Seq<char>>,
                    NXError,
                >(NXError::IoError));
            }
            return Err(NXError::IoError);
        }
        let slot_us: usize = slot as usize;
        let off64 = layout::read_u64(data.as_slice(), slot_us);
        proof {
            assert(off64 == le64(data@, slot_spec));
        }
        if (off64 as u128) + 2 > len as u128 {
            proof {
                assert(string_entry_spec(data@, slot_spec) == Err::<Seq<char>, NXError>(
                    NXError::IoError,
                ));
                lemma_strings_spec_error(data@, table as int, i as int, count as int);
                assert(strings_spec(data@, table as int, count as int) == Err::<
                    Seq<Seq<char>>,
                    NXError,
                >(NXError::IoError));
            }
            return Err(NXError::IoError);
        }
        let off: usize = off64 as usize;
        let slen = layout::read_u16(data.as_slice(), off);
        proof {
            assert(slen == le16(data@, off64 as int));
        }
        if (off64 as u128) + 2 + (slen as u128) > len as u128 {
            proof {
                assert(string_entry_spec(data@, slot_spec) == Err::<Seq<char>, NXError>(
                    NXError::IoError,
                ));
                lemma_strings_spec_error(data@, table as int, i as int, count as int);
                assert(strings_spec(data@, table as int, count as int) == Err::<
                    Seq<Seq<char>>,
                    NXError,
                >(NXError::IoError));
            }
            return Err(NXError::IoError);
        }
        let sbytes = vstd::slice::slice_to_vec(
            vstd::slice::slice_subrange(data.as_slice(), off + 2, off + 2 + slen as usize),
        );
        proof {
            assert(sbytes@ == data@.subrange(off64 as int + 2, off64 as int + 2 + slen as int));
        }
        match text::utf8_to_string(sbytes) {
            Option::None => {
                proof {
                    assert(string_entry_spec(data@, slot_spec) == Err::<Seq<char>, NXError>(
                        NXError::InvalidUtf8,
                    ));
                    lemma_strings_spec_error(data@, table as int, i as int, count as int);
                    assert(strings_spec(data@, table as int, count as int) == Err::<
                        Seq<Seq<char>>,
                        NXError,
                    >(NXError::InvalidUtf8));
                }
                return Err(NXError::InvalidUtf8);
            },
            Option::Some(s) => {
                proof {
                    assert(string_entry_spec(data@, slot_spec) == Ok::<Seq<char>, NXError>(s@));
                }
                let ghost old_strings = strings@;
                strings.push(s);
                proof {
                    assert(strs_view(strings@) =~= strs_view(old_strings).push(strings@[
                        old_strings.len() as int]@));
                    assert(strings_spec(data@, table as int, i as int + 1) == Ok::<_, NXError>(
                        strs_view(strings@),
                    ));
                }
            },
        }
        i += 1;
    }
    Ok(strings)
}

/// Loads the node table: `node_count` sequential 20-byte records.
#[verifier::rlimit(50)]
fn load_nodes(data: &Vec<u8>, header: &NXFileHeader, strings: &Vec<String>) -> (r: Result<
    Vec<NXNode>,
    NXError,
>)
    ensures
        match r {
            Ok(v) => nodes_spec(
                data@,
                header.node_offset as int,
                strs_view(strings@),
                header.node_count as int,
            ) == Ok::<_, NXError>(v@.map_values(|n: NXNode| n@)),
            Err(e) => nodes_spec(
                data@,
                header.node_offset as int,
                strs_view(strings@),
                header.node_count as int,
            ) == Err::<Seq<NodeView>, NXError>(e),
        },
{
    let len = data.len();
    let table = header.node_offset;
    let count = header.node_count;
    let mut nodes: Vec<NXNode> = Vec::new();
    let mut j: u32 = 0;
    proof {
        assert(nodes@.map_values(|n: NXNode| n@) =~= Seq::<NodeView>::empty());
    }
    while j < count
        invariant
            0 <= j <= count,
            len == data@.len(),
            table == header.node_offset,
            count == header.node_count,
            nodes@.len() == j,
            nodes_spec(data@, table as int, strs_view(strings@), j as int) == Ok::<_, NXError>(
                nodes@.map_values(|n: NXNode| n@),
            ),
        decreases count - j,
    {
        let ghost rec_spec: int = table as int + 20 * (j as int);
        let rec: u128 = table as u128 + 20u128 * (j as u128);
        if rec + 20 > len as u128 {
            proof {
                assert(node_record_spec(data@, rec_spec, strs_view(strings@)) == Err::<
                    NodeView,
                    NXError,
                >(NXError::IoError));
                lemma_nodes_spec_error(
                    data@,
                    table as int,
                    strs_view(strings@),
                    j as int,
                    count as int,
                );
                assert(nodes_spec(data@, table as int, strs_view(strings@), count as int) == Err::<
                    Seq<NodeView>,
                    NXError,
                >(NXError::IoError));
            }
            return Err(NXError::IoError);
        }
        let p: usize = rec as usize;
        let s = data.as_slice();
        let name_id = layout::read_u32(s, p);
        let child = layout::read_u32(s, p + 4);
        let n_child = layout::read_u16(s, p + 8);
        let tag = layout::read_u16(s, p + 10);
        let payload: [u8; 8] = [
            *vstd::slice::slice_index_get(s, p + 12),
            *vstd::slice::slice_index_get(s, p + 13),
            *vstd::slice::slice_index_get(s, p + 14),
            *vstd::slice::slice_index_get(s, p + 15),
            *vstd::slice::slice_index_get(s, p + 16),
            *vstd::slice::slice_index_get(s, p + 17),
            *vstd::slice::slice_index_get(s, p + 18),
            *vstd::slice::slice_index_get(s, p + 19),
        ];
        proof {
            assert(payload@ =~= data@.subrange(p + 12, p + 20));
        }
        let ntype = NXNodeType::from_tag(tag);
        let node_data = create_node_data(strings, ntype, &payload);
        let name = get_string(strings, name_id);
        let ghost old_nodes = nodes@;
        nodes.push(NXNode { name_id, name, child, n_child, ntype, data: node_data });
        proof {
            let new_view = nodes@[old_nodes.len() as int]@;
            assert(node_record_spec(data@, rec_spec, strs_view(strings@)) == Ok::<
                NodeView,
                NXError,
            >(new_view));
            assert(nodes@.map_values(|n: NXNode| n@) =~= old_nodes.map_values(
                |n: NXNode| n@,
            ).push(new_view));
            assert(nodes_spec(data@, table as int, strs_view(strings@), j as int + 1) == Ok::<
                _,
                NXError,
            >(nodes@.map_values(|n: NXNode| n@)));
        }
        j += 1;
    }
    Ok(nodes)
}

impl NXFile {
    /// Opens a container from its raw bytes: checks the magic tag, reads
    /// the header, then loads the string table and the node table. Returns
    /// exactly what [`open_spec`] denotes for this byte image; on error no
    /// container is produced.
    pub fn new(data: &Vec<u8>) -> (r: Result<NXFile, NXError>)
        ensures
            match r {
                Ok(f) => open_spec(data@) == Ok::<FileView, NXError>(f@),
                Err(e) => open_spec(data@) == Err::<FileView, NXError>(e),
            },
    {
        let len = data.len();
        if len < 4 {
            return Err(NXError::IoError);
        }
        let s = data.as_slice();
        let m0 = *vstd::slice::slice_index_get(s, 0);
        let m1 = *vstd::slice::slice_index_get(s, 1);
        let m2 = *vstd::slice::slice_index_get(s, 2);
        let m3 = *vstd::slice::slice_index_get(s, 3);
        if !(m0 == 0x50 && m1 == 0x4b && m2 == 0x47 && m3 == 0x34) {
            return Err(NXError::BadMagic);
        }
        if len < 52 {
            return Err(NXError::IoError);
        }
        let header = NXFileHeader {
            magic: layout::read_u32(s, 0),
            node_count: layout::read_u32(s, 4),
            node_offset: layout::read_u64(s, 8),
            string_count: layout::read_u32(s, 16),
            string_offset: layout::read_u64(s, 20),
            bitmap_count: layout::read_u32(s, 28),
            bitmap_offset: layout::read_u64(s, 32),
            audio_count: layout::read_u32(s, 40),
            audio_offset: layout::read_u64(s, 44),
        };
        let strings = match load_tables(data, &header) {
            Ok(v) => v,
            Err(e) => {
                return Err(e);
            },
        };
        let nodes = match load_nodes(data, &header, &strings) {
            Ok(v) => v,
            Err(e) => {
                return Err(e);
            },
        };
        let f = NXFile { file_data: NXFileData { header, strings }, nodes };
        proof {
            assert(open_spec(data@) matches Ok(v) && v =~= f@);
        }
        Ok(f)
    }
}

/// The first node in `nodes[start .. end)` whose name equals `name`.
pub open spec fn first_child_match(
    nodes: Seq<NodeView>,
    start: int,
    end: int,
    name: Seq<char>,
) -> Option<NodeView>
    recommends
        0 <= start,
        end <= nodes.len(),
    decreases end - start,
{
    if start >= end {
        None
    } else if nodes[start].name == name {
        Some(nodes[start])
    } else {
        first_child_match(nodes, start + 1, end, name)
    }
}

/// The first child of `node` named `name`: a linear scan of the child span,
/// absent when the span is out of bounds or no child matches.
pub open spec fn child_named_spec(f: FileView, node: NodeView, name: Seq<char>) -> Option<
    NodeView,
> {
    if node.child + node.n_child > f.nodes.len() {
        None
    } else {
        first_child_match(f.nodes, node.child as int, node.child + node.n_child, name)
    }
}

/// The segments of a path split on '/'; splitting keeps empty segments,
/// so the empty path has the single segment "".
pub open spec fn segments_of(path: Seq<char>) -> Seq<Seq<char>>
    decreases path.len(),
{
    if path.len() == 0 {
        seq![Seq::<char>::empty()]
    } else if path[0] == '/' {
        seq![Seq::<char>::empty()] + segments_of(path.drop_first())
    } else {
        let rest = segments_of(path.drop_first());
        seq![seq![path[0]] + rest[0]] + rest.drop_first()
    }
}

/// Walks the segments in order from `cur`, skipping empty segments and
/// stopping at the first unmatched one.
pub open spec fn resolve_segments(f: FileView, cur: NodeView, segs: Seq<Seq<char>>) -> Option<
    NodeView,
>
    decreases segs.len(),
{
    if segs.len() == 0 {
        Some(cur)
    } else if segs[0].len() == 0 {
        resolve_segments(f, cur, segs.drop_first())
    } else {
        match child_named_spec(f, cur, segs[0]) {
            None => None,
            Some(c) => resolve_segments(f, c, segs.drop_first()),
        }
    }
}

/// What resolving a path yields: the walk of its segments starting at the
/// root (node index 0). The empty path resolves to the root itself; a
/// container without nodes resolves nothing.
pub open spec fn resolve_spec(f: FileView, path: Seq<char>) -> Option<NodeView> {
    if f.nodes.len() == 0 {
        None
    } else {
        resolve_segments(f, f.nodes[0], segments_of(path))
    }
}

/// A path always splits into at least one segment.
pub proof fn lemma_segments_nonempty(path: Seq<char>)
    ensures
        segments_of(path).len() >= 1,
    decreases path.len(),
{
    if path.len() != 0 {
        lemma_segments_nonempty(path.drop_first());
    }
}

/// Splitting off the first segment: if the first `e` characters hold no
/// separator, they form the first segment, terminated either by the end of
/// the path or by a separator at position `e`.
pub proof fn lemma_segments_decompose(p: Seq<char>, e: int)
    requires
        0 <= e <= p.len(),
        forall|k: int| 0 <= k < e ==> p[k] != '/',
        e < p.len() ==> p[e] == '/',
    ensures
        e == p.len() ==> segments_of(p) == seq![p],
        e < p.len() ==> segments_of(p) == seq![p.take(e)] + segments_of(p.skip(e + 1)),
    decreases p.len(),
{
    lemma_segments_nonempty(p);
    if p.len() == 0 {
        assert(segments_of(p) =~~= seq![p]);
    } else if e == 0 {
        if p.len() > 0 && e < p.len() {
            assert(p.take(0) =~= Seq::<char>::empty());
            assert(p.skip(1) =~= p.drop_first());
            assert(segments_of(p) =~= seq![p.take(0)] + segments_of(p.skip(1)));
        }
    } else {
        let p1 = p.drop_first();
        lemma_segments_nonempty(p1);
        lemma_segments_decompose(p1, e - 1);
        let rest = segments_of(p1);
        if e == p.len() {
            assert(rest == seq![p1]);
            assert(rest[0] == p1);
            assert(rest.drop_first() =~= Seq::<Seq<char>>::empty());
            assert(seq![p[0]] + p1 =~= p);
            assert(segments_of(p) =~= seq![p]);
        } else {
            assert(rest == seq![p1.take(e - 1)] + segments_of(p1.skip(e)));
            lemma_segments_nonempty(p1.skip(e));
            assert(rest[0] == p1.take(e - 1));
            assert(rest.drop_first() =~= segments_of(p1.skip(e)));
            assert(seq![p[0]] + p1.take(e - 1) =~= p.take(e));
            assert(p1.skip(e) =~= p.skip(e + 1));
            assert(segments_of(p) =~= seq![p.take(e)] + segments_of(p.skip(e + 1)));
        }
    }
}

/// Every entry of a successfully loaded string table round-trips: the table
/// has one string per declared index, and entry `i` is exactly the decoding
/// of the length-prefixed bytes at its recorded offset.
proof fn lemma_strings_spec_entry(b: Seq<u8>, table: int, count: int, i: int)
    requires
        0 <= i < count,
        strings_spec(b, table, count) is Ok,
    ensures
        strings_spec(b, table, count)->Ok_0.len() == count,
        string_entry_spec(b, table + 8 * i) == Ok::<Seq<char>, NXError>(
            strings_spec(b, table, count)->Ok_0[i],
        ),
    decreases count,
{
    if count == i + 1 {
        lemma_strings_spec_len(b, table, count);
    } else {
        lemma_strings_spec_entry(b, table, count - 1, i);
        lemma_strings_spec_len(b, table, count);
    }
}

/// A successfully loaded string table has exactly `count` entries.
proof fn lemma_strings_spec_len(b: Seq<u8>, table: int, count: int)
    requires
        strings_spec(b, table, count) is Ok,
    ensures
        strings_spec(b, table, count)->Ok_0.len() == (if count >= 0 { count } else { 0 }),
    decreases count,
{
    if count > 0 {
        lemma_strings_spec_len(b, table, count - 1);
    }
}

/// A successfully loaded node table has exactly `count` records, and record
/// `j` is the decoding of the 20-byte record at its on-disk position.
proof fn lemma_nodes_spec_entry(b: Seq<u8>, table: int, strings: Seq<Seq<char>>, count: int, j: int)
    requires
        0 <= j < count,
        nodes_spec(b, table, strings, count) is Ok,
    ensures
        nodes_spec(b, table, strings, count)->Ok_0.len() == count,
        node_record_spec(b, table + 20 * j, strings) == Ok::<NodeView, NXError>(
            nodes_spec(b, table, strings, count)->Ok_0[j],
        ),
    decreases count,
{
    if count == j + 1 {
        lemma_nodes_spec_len(b, table, strings, count);
    } else {
        lemma_nodes_spec_entry(b, table, strings, count - 1, j);
        lemma_nodes_spec_len(b, table, strings, count);
    }
}

/// A successfully loaded node table has exactly `count` records.
proof fn lemma_nodes_spec_len(b: Seq<u8>, table: int, strings: Seq<Seq<char>>, count: int)
    requires
        nodes_spec(b, table, strings, count) is Ok,
    ensures
        nodes_spec(b, table, strings, count)->Ok_0.len() == (if count >= 0 { count } else { 0 }),
    decreases count,
{
    if count > 0 {
        lemma_nodes_spec_len(b, table, strings, count - 1);
    }
}

/// String-table loading fails only for truncation or invalid UTF-8.
proof fn lemma_strings_spec_err(b: Seq<u8>, table: int, count: int)
    requires
        strings_spec(b, table, count) is Err,
    ensures
        strings_spec(b, table, count)->Err_0 == NXError::IoError || strings_spec(b, table, count)
            ->Err_0 == NXError::InvalidUtf8,
    decreases count,
{
    if count > 0 && strings_spec(b, table, count - 1) is Err {
        lemma_strings_spec_err(b, table, count - 1);
    }
}

/// Node-table loading fails only for truncation.
proof fn lemma_nodes_spec_err(b: Seq<u8>, table: int, strings: Seq<Seq<char>>, count: int)
    requires
        nodes_spec(b, table, strings, count) is Err,
    ensures
        nodes_spec(b, table, strings, count)->Err_0 == NXError::IoError,
    decreases count,
{
    if count > 0 && nodes_spec(b, table, strings, count - 1) is Err {
        lemma_nodes_spec_err(b, table, strings, count - 1);
    }
}

/// A loaded container has the shape its header declares: the header is the
/// decoding of the first 52 bytes, and the tables have exactly the declared
/// counts.
pub proof fn lemma_open_shape(b: Seq<u8>)
    requires
        open_spec(b) is Ok,
    ensures
        b.len() >= 52,
        magic_ok(b),
        open_spec(b)->Ok_0.header == header_spec(b),
        open_spec(b)->Ok_0.strings.len() == header_spec(b).string_count,
        open_spec(b)->Ok_0.nodes.len() == header_spec(b).node_count,
{
    let h = header_spec(b);
    lemma_strings_spec_len(b, h.string_offset as int, h.string_count as int);
    let strings = strings_spec(b, h.string_offset as int, h.string_count as int)->Ok_0;
    lemma_nodes_spec_len(b, h.node_offset as int, strings, h.node_count as int);
}

/// String-table round trip: for a loaded container, decoding the
/// length-prefixed bytes at the offset recorded in indirection slot `i`
/// reproduces string `i` exactly, and all those reads lie within the image.
pub proof fn lemma_string_table_round_trip(b: Seq<u8>, i: int)
    requires
        open_spec(b) is Ok,
        0 <= i < open_spec(b)->Ok_0.header.string_count,
    ensures
        ({
            let f = open_spec(b)->Ok_0;
            let slot = f.header.string_offset + 8 * i;
            &&& slot + 8 <= b.len()
            &&& le64(b, slot) + 2 + le16(b, le64(b, slot)) <= b.len()
            &&& valid_utf8(
                b.subrange(le64(b, slot) + 2, le64(b, slot) + 2 + le16(b, le64(b, slot))),
            )
            &&& f.strings[i] == decode_utf8(
                b.subrange(le64(b, slot) + 2, le64(b, slot) + 2 + le16(b, le64(b, slot))),
            )
        }),
{
    let h = header_spec(b);
    lemma_open_shape(b);
    lemma_strings_spec_entry(b, h.string_offset as int, h.string_count as int, i);
}

/// A node's display name is the string-table entry its record names, and an
/// out-of-range name id resolves to the empty string rather than a fault.
pub proof fn lemma_node_name(b: Seq<u8>, j: int)
    requires
        open_spec(b) is Ok,
        0 <= j < open_spec(b)->Ok_0.header.node_count,
    ensures
        ({
            let f = open_spec(b)->Ok_0;
            &&& f.nodes[j].name == string_at(f.strings, f.nodes[j].name_id as int)
            &&& f.nodes[j].name_id >= f.strings.len() ==> f.nodes[j].name == Seq::<char>::empty()
        }),
{
    let h = header_spec(b);
    lemma_open_shape(b);
    let strings = strings_spec(b, h.string_offset as int, h.string_count as int)->Ok_0;
    lemma_nodes_spec_entry(b, h.node_offset as int, strings, h.node_count as int, j);
}

/// Opening fails with `BadMagic` exactly when the image has at least four
/// bytes and they are not the magic tag; nothing after the tag matters.
pub proof fn lemma_bad_magic(b: Seq<u8>)
    ensures
        (open_spec(b) == Err::<FileView, NXError>(NXError::BadMagic)) <==> (b.len() >= 4
            && !magic_ok(b)),
{
    if b.len() >= 4 && magic_ok(b) && b.len() >= 52 {
        let h = header_spec(b);
        if strings_spec(b, h.string_offset as int, h.string_count as int) is Err {
            lemma_strings_spec_err(b, h.string_offset as int, h.string_count as int);
        } else {
            let strings = strings_spec(b, h.string_offset as int, h.string_count as int)->Ok_0;
            if nodes_spec(b, h.node_offset as int, strings, h.node_count as int) is Err {
                lemma_nodes_spec_err(b, h.node_offset as int, strings, h.node_count as int);
            }
        }
    }
}

/// Resolving the empty path yields the root.
pub proof fn lemma_resolve_empty(f: FileView)
    requires
        f.nodes.len() > 0,
    ensures
        resolve_spec(f, Seq::<char>::empty()) == Some(f.nodes[0]),
{
    let segs = segments_of(Seq::<char>::empty());
    assert(segs == seq![Seq::<char>::empty()]);
    assert(segs.drop_first() =~= Seq::<Seq<char>>::empty());
    assert(resolve_segments(f, f.nodes[0], Seq::<Seq<char>>::empty()) == Some(f.nodes[0]));
}

/// Resolution handles one non-empty segment at a time: it asks the current
/// node for a child of that name and stops at the first failure.
pub proof fn lemma_resolve_segments_step(f: FileView, cur: NodeView, segs: Seq<Seq<char>>)
    requires
        segs.len() >= 1,
        segs[0].len() > 0,
    ensures
        resolve_segments(f, cur, segs) == match child_named_spec(f, cur, segs[0]) {
            None => None,
            Some(c) => resolve_segments(f, c, segs.drop_first()),
        },
{
}

/// The '/'-joined form of a segment list.
pub open spec fn join_segments(segs: Seq<Seq<char>>) -> Seq<char>
    recommends
        segs.len() >= 1,
    decreases segs.len(),
{
    if segs.len() <= 1 {
        if segs.len() == 1 {
            segs[0]
        } else {
            Seq::empty()
        }
    } else {
        segs[0] + seq!['/'] + join_segments(segs.drop_first())
    }
}

/// Splitting is the inverse of joining: a '/'-joined list of separator-free
/// segments splits back into exactly those segments. Together with
/// [`lemma_resolve_segments_step`] this makes resolving "a/b/c" the chained
/// child-by-name lookup of "a", then "b", then "c".
pub proof fn lemma_segments_of_join(segs: Seq<Seq<char>>)
    requires
        segs.len() >= 1,
        forall|i: int, k: int|
            0 <= i < segs.len() && 0 <= k < segs[i].len() ==> segs[i][k] != '/',
    ensures
        segments_of(join_segments(segs)) == segs,
    decreases segs.len(),
{
    if segs.len() == 1 {
        let p = join_segments(segs);
        assert(p == segs[0]);
        lemma_segments_decompose(p, p.len() as int);
        assert(seq![p] =~= segs);
    } else {
        let p = join_segments(segs);
        let rest = segs.drop_first();
        let l = segs[0].len() as int;
        assert(p == segs[0] + seq!['/'] + join_segments(rest));
        assert(p.len() == l + 1 + join_segments(rest).len());
        assert forall|k: int| 0 <= k < l implies p[k] != '/' by {
            assert(p[k] == segs[0][k]);
        }
        assert(p[l] == '/');
        lemma_segments_decompose(p, l);
        assert(p.take(l) =~= segs[0]);
        assert(p.skip(l + 1) =~= join_segments(rest));
        lemma_segments_of_join(rest);
        assert(seq![segs[0]] + rest =~= segs);
    }
}

/// Resolving a '/'-joined list of separator-free segments walks exactly
/// those segments from the root.
pub proof fn lemma_resolve_join(f: FileView, segs: Seq<Seq<char>>)
    requires
        f.nodes.len() > 0,
        segs.len() >= 1,
        forall|i: int, k: int|
            0 <= i < segs.len() && 0 <= k < segs[i].len() ==> segs[i][k] != '/',
    ensures
        resolve_spec(f, join_segments(segs)) == resolve_segments(f, f.nodes[0], segs),
{
    lemma_segments_of_join(segs);
}

/// Resolving "a/b/c" — three separator-free, non-empty segments joined by
/// '/' — is the chained child-by-name lookup of "a", then "b", then "c"
/// from the root, stopping at the first segment that matches no child.
pub proof fn lemma_resolve_three(f: FileView, a: Seq<char>, b: Seq<char>, c: Seq<char>)
    requires
        f.nodes.len() > 0,
        a.len() > 0 && b.len() > 0 && c.len() > 0,
        forall|k: int| 0 <= k < a.len() ==> a[k] != '/',
        forall|k: int| 0 <= k < b.len() ==> b[k] != '/',
        forall|k: int| 0 <= k < c.len() ==> c[k] != '/',
    ensures
        resolve_spec(f, a + seq!['/'] + b + seq!['/'] + c) == match child_named_spec(
            f,
            f.nodes[0],
            a,
        ) {
            None => None,
            Some(n1) => match child_named_spec(f, n1, b) {
                None => None,
                Some(n2) => child_named_spec(f, n2, c),
            },
        },
{
    let segs = seq![a, b, c];
    assert forall|i: int, k: int|
        0 <= i < segs.len() && 0 <= k < segs[i].len() implies segs[i][k] != '/' by {
        if i == 0 {
            assert(segs[i] == a);
        } else if i == 1 {
            assert(segs[i] == b);
        } else {
            assert(segs[i] == c);
        }
    }
    lemma_resolve_join(f, segs);
    assert(segs.drop_first() =~= seq![b, c]);
    assert(seq![b, c].drop_first() =~= seq![c]);
    assert(seq![c].drop_first() =~= Seq::<Seq<char>>::empty());
    assert(join_segments(seq![c]) == c);
    assert(join_segments(seq![b, c]) == b + seq!['/'] + c);
    assert(join_segments(segs) =~= a + seq!['/'] + b + seq!['/'] + c);
    assert(segs[0] == a && seq![b, c][0] == b && seq![c][0] == c);
    match child_named_spec(f, f.nodes[0], a) {
        None => {
            assert(resolve_segments(f, f.nodes[0], segs) is None);
        },
        Some(n1) => {
            assert(resolve_segments(f, f.nodes[0], segs) == resolve_segments(f, n1, seq![b, c]));
            match child_named_spec(f, n1, b) {
                None => {
                    assert(resolve_segments(f, n1, seq![b, c]) is None);
                },
                Some(n2) => {
                    assert(resolve_segments(f, n1, seq![b, c]) == resolve_segments(
                        f,
                        n2,
                        seq![c],
                    ));
                    match child_named_spec(f, n2, c) {
                        None => {
                            assert(resolve_segments(f, n2, seq![c]) is None);
                        },
                        Some(n3) => {
                            assert(resolve_segments(f, n3, Seq::<Seq<char>>::empty()) == Some(
                                n3,
                            ));
                            assert(resolve_segments(f, n2, seq![c]) == Some(n3));
                        },
                    }
                },
            }
        },
    }
}

impl NXFile {
    /// The parsed file header.
    pub fn header(&self) -> (r: &NXFileHeader)
        ensures
            *r == self@.header,
    {
        &self.file_data.header
    }

    /// The root node: index 0 of the node array, absent when the container
    /// has no nodes.
    pub fn get_root(&self) -> (r: Option<&NXNode>)
        ensures
            match r {
                Some(n) => self@.nodes.len() > 0 && n@ == self@.nodes[0],
                None => self@.nodes.len() == 0,
            },
    {
        if self.nodes.len() > 0 {
            Some(vstd::std_specs::vec::vec_index(&self.nodes, 0))
        } else {
            None
        }
    }

    /// The children of `node`: the sub-sequence of the global node array
    /// spanning `[child, child + n_child)`. A span that exceeds the array
    /// is a corrupt container and yields `OutOfBounds`, never a partial or
    /// empty result.
    pub fn get_node_children<'a>(&'a self, node: &NXNode) -> (r: Result<Vec<&'a NXNode>, NXError>)
        ensures
            match r {
                Ok(v) => {
                    &&& node.child + node.n_child <= self.nodes@.len()
                    &&& v@.len() == node.n_child
                    &&& forall|k: int|
                        0 <= k < v@.len() ==> *v@[k] == self.nodes@[node.child + k]
                },
                Err(e) => {
                    &&& e == NXError::OutOfBounds
                    &&& node.child + node.n_child > self.nodes@.len()
                },
            },
    {
        let start = node.child as usize;
        let cnt = node.n_child as usize;
        if (node.child as u64) + (node.n_child as u64) > (self.nodes.len() as u64) {
            return Err(NXError::OutOfBounds);
        }
        let end = start + cnt;
        let mut v: Vec<&'a NXNode> = Vec::new();
        let mut k = start;
        while k < end
            invariant
                start <= k <= end,
                end == start + cnt,
                end <= self.nodes@.len(),
                v@.len() == k - start,
                forall|m: int| 0 <= m < v@.len() ==> *v@[m] == self.nodes@[start + m],
            decreases end - k,
        {
            v.push(vstd::std_specs::vec::vec_index(&self.nodes, k));
            k += 1;
        }
        Ok(v)
    }

    /// The first child of `node` whose name equals `name` byte for byte,
    /// or `None` when no child matches or the child span is out of bounds.
    pub fn get_node_child<'a>(&'a self, node: &NXNode, name: &str) -> (r: Option<&'a NXNode>)
        ensures
            match r {
                Some(n) => child_named_spec(self@, node@, name@) == Some(n@),
                None => child_named_spec(self@, node@, name@) is None,
            },
    {
        let start = node.child as usize;
        let cnt = node.n_child as usize;
        if (node.child as u64) + (node.n_child as u64) > (self.nodes.len() as u64) {
            return None;
        }
        let end = start + cnt;
        let mut k = start;
        while k < end
            invariant
                start <= k <= end,
                end == start + cnt,
                end <= self.nodes@.len(),
                start == node.child,
                end == node.child + node.n_child,
                first_child_match(self@.nodes, start as int, end as int, name@)
                    == first_child_match(self@.nodes, k as int, end as int, name@),
            decreases end - k,
        {
            let cand = vstd::std_specs::vec::vec_index(&self.nodes, k);
            if crate::text::str_eq(cand.name.as_str(), name) {
                return Some(cand);
            }
            k += 1;
        }
        None
    }

    /// Resolves a '/'-separated path from the root: each non-empty segment
    /// selects the first child of the current node with that name, and
    /// resolution fails (absent) at the first unmatched segment. The empty
    /// path resolves to the root.
    pub fn resolve<'a>(&'a self, full_path: &str) -> (r: Option<&'a NXNode>)
        ensures
            match r {
                Some(n) => resolve_spec(self@, full_path@) == Some(n@),
                None => resolve_spec(self@, full_path@) is None,
            },
    {
        if self.nodes.len() == 0 {
            return None;
        }
        let n = full_path.unicode_len();
        let mut pos: usize = 0;
        let mut cur: &'a NXNode = vstd::std_specs::vec::vec_index(&self.nodes, 0);
        proof {
            assert(full_path@.skip(0) =~= full_path@);
        }
        loop
            invariant
                n == full_path@.len(),
                0 <= pos <= n,
                self@.nodes.len() > 0,
                resolve_segments(self@, cur@, segments_of(full_path@.skip(pos as int)))
                    == resolve_spec(self@, full_path@),
            decreases n - pos,
        {
            let mut e = pos;
            while e < n && full_path.get_char(e) != '/'
                invariant
                    n == full_path@.len(),
                    pos <= e <= n,
                    forall|k: int| pos <= k < e ==> full_path@[k] != '/',
                decreases n - e,
            {
                e += 1;
            }
            let ghost suffix = full_path@.skip(pos as int);
            proof {
                assert forall|k: int| 0 <= k < e - pos implies suffix[k] != '/' by {
                    assert(suffix[k] == full_path@[pos + k]);
                }
                if (e as int) - (pos as int) < suffix.len() {
                    assert(suffix[e - pos] == full_path@[e as int]);
                }
                lemma_segments_decompose(suffix, e as int - pos as int);
            }
            if e == pos {
                // empty segment: skipped by the walk
                if e == n {
                    proof {
                        assert(suffix.len() == 0);
                        assert(segments_of(suffix) == seq![Seq::<char>::empty()]);
                        assert(segments_of(suffix).drop_first() =~= Seq::<Seq<char>>::empty());
                        assert(resolve_segments(self@, cur@, Seq::<Seq<char>>::empty())
                            == Some(cur@));
                        assert(resolve_segments(self@, cur@, segments_of(suffix)) == Some(cur@));
                    }
                    return Some(cur);
                }
                proof {
                    let segs = segments_of(suffix);
                    assert(segs == seq![suffix.take(0)] + segments_of(suffix.skip(1)));
                    assert(segs[0] =~= Seq::<char>::empty());
                    assert(segs.drop_first() =~= segments_of(suffix.skip(1)));
                    assert(suffix.skip(1) =~= full_path@.skip(pos + 1));
                }
                pos = e + 1;
            } else {
                let seg = full_path.substring_char(pos, e);
                proof {
                    assert(seg@ =~= suffix.take(e as int - pos as int));
                }
                let found = self.get_node_child(cur, seg);
                if e == n {
                    proof {
                        assert(suffix.take(e as int - pos as int) =~= suffix);
                        assert(segments_of(suffix) == seq![suffix]);
                        assert(segments_of(suffix)[0] == suffix);
                        assert(segments_of(suffix).drop_first() =~= Seq::<Seq<char>>::empty());
                    }
                    match found {
                        None => {
                            return None;
                        },
                        Some(c) => {
                            proof {
                                assert(child_named_spec(self@, cur@, suffix) == Some(c@));
                                assert(resolve_segments(self@, c@, Seq::<Seq<char>>::empty())
                                    == Some(c@));
                                assert(resolve_segments(self@, cur@, segments_of(suffix))
                                    == Some(c@));
                            }
                            return Some(c);
                        },
                    }
                }
                match found {
                    None => {
                        proof {
                            let segs = segments_of(suffix);
                            assert(segs == seq![suffix.take(e as int - pos as int)]
                                + segments_of(suffix.skip(e as int - pos as int + 1)));
                            assert(segs[0] == seg@);
                        }
                        return None;
                    },
                    Some(c) => {
                        proof {
                            let segs = segments_of(suffix);
                            assert(segs == seq![suffix.take(e as int - pos as int)]
                                + segments_of(suffix.skip(e as int - pos as int + 1)));
                            assert(segs[0] == seg@);
                            assert(segs.drop_first() =~= segments_of(
                                suffix.skip(e as int - pos as int + 1),
                            ));
                            assert(suffix.skip(e as int - pos as int + 1) =~= full_path@.skip(
                                e as int + 1,
                            ));
                        }
                        cur = c;
                        pos = e + 1;
                    },
                }
            }
        }
    }
}

} // verus!
