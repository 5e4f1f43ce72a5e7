use nx::error::NXError;
use nx::nx_file::NXFile;
use nx::nx_node::{NXNodeData, NXNodeType};

fn push_u16(v: &mut Vec<u8>, x: u16) {
    v.extend_from_slice(&x.to_le_bytes());
}

fn push_u32(v: &mut Vec<u8>, x: u32) {
    v.extend_from_slice(&x.to_le_bytes());
}

fn push_u64(v: &mut Vec<u8>, x: u64) {
    v.extend_from_slice(&x.to_le_bytes());
}

/// Builds a container image: header, string blobs, indirection table, then
/// the node records given as (name_id, first_child, child_count, type_tag,
/// payload).
fn build_container(strings: &[&str], nodes: &[(u32, u32, u16, u16, [u8; 8])]) -> Vec<u8> {
    let mut blob: Vec<u8> = Vec::new();
    let mut offsets: Vec<u64> = Vec::new();
    for s in strings {
        offsets.push(52 + blob.len() as u64);
        push_u16(&mut blob, s.len() as u16);
        blob.extend_from_slice(s.as_bytes());
    }
    let string_offset = 52 + blob.len() as u64;
    let node_offset = string_offset + 8 * strings.len() as u64;
    let mut v: Vec<u8> = Vec::new();
    v.extend_from_slice(b"PKG4");
    push_u32(&mut v, nodes.len() as u32);
    push_u64(&mut v, node_offset);
    push_u32(&mut v, strings.len() as u32);
    push_u64(&mut v, string_offset);
    push_u32(&mut v, 0);
    push_u64(&mut v, 0);
    push_u32(&mut v, 0);
    push_u64(&mut v, 0);
    v.extend_from_slice(&blob);
    for off in &offsets {
        push_u64(&mut v, *off);
    }
    for (name_id, child, n_child, tag, payload) in nodes {
        push_u32(&mut v, *name_id);
        push_u32(&mut v, *child);
        push_u16(&mut v, *n_child);
        push_u16(&mut v, *tag);
        v.extend_from_slice(payload);
    }
    v
}

const Z: [u8; 8] = [0u8; 8];

/// A small tree: the root has two children both named "Map" (the first one
/// empty, the second an Int64), the first "Map" has children "Map0" and
/// "fly", "Map0" has one child "info", and node 6 declares a corrupt child
/// span.
fn sample() -> Vec<u8> {
    let mut int42 = [0u8; 8];
    int42[..8].copy_from_slice(&42i64.to_le_bytes());
    let mut int1 = [0u8; 8];
    int1[..8].copy_from_slice(&1i64.to_le_bytes());
    let mut text0 = [0u8; 8];
    text0[..4].copy_from_slice(&0u32.to_le_bytes());
    build_container(
        &["Map", "Map0", "info", "fly"],
        &[
            (99, 1, 2, 0, Z),      // 0: root, out-of-range name id
            (0, 3, 2, 0, Z),       // 1: "Map"
            (0, 0, 0, 1, int42),   // 2: "Map" again, Int64(42)
            (1, 5, 1, 0, Z),       // 3: "Map0"
            (3, 0, 0, 1, int1),    // 4: "fly", Int64(1)
            (2, 0, 0, 3, text0),   // 5: "info", Text(string 0)
            (99, 90, 4, 0, Z),     // 6: corrupt child span
        ],
    )
}

#[test]
fn header_fields() {
    let data = sample();
    let f = NXFile::new(&data).unwrap();
    let h = f.header();
    assert_eq!(h.node_count, 7);
    assert_eq!(h.string_count, 4);
    assert_eq!(h.bitmap_count, 0);
    assert_eq!(h.audio_count, 0);
    assert_eq!(h.string_offset, 52 + (2 + 3) + (2 + 4) + (2 + 4) + (2 + 3));
    assert_eq!(h.node_offset, h.string_offset + 8 * 4);
}

#[test]
fn children_are_the_declared_span() {
    let data = sample();
    let f = NXFile::new(&data).unwrap();
    let root = f.get_root().unwrap();
    let kids = f.get_node_children(root).unwrap();
    assert_eq!(kids.len(), root.n_child as usize);
    assert_eq!(kids.len(), 2);
    assert_eq!(kids[0].name(), "Map");
    assert_eq!(kids[1].name(), "Map");
    assert!(matches!(kids[1].value(), NXNodeData::Int64(42)));
    // a node without children yields an empty sequence
    let leaf = f.get_node_child(kids[0], "fly").unwrap();
    let none = f.get_node_children(leaf).unwrap();
    assert_eq!(none.len(), 0);
}

#[test]
fn out_of_bounds_span_is_an_error() {
    let data = sample();
    let f = NXFile::new(&data).unwrap();
    // node 6 declares children [90, 94) in a 7-node table
    let bad = &f.nodes[6];
    match f.get_node_children(bad) {
        Err(e) => assert_eq!(e, NXError::OutOfBounds),
        Ok(v) => panic!("expected OutOfBounds, got {} children", v.len()),
    }
}

#[test]
fn resolve_walks_named_children() {
    let data = sample();
    let f = NXFile::new(&data).unwrap();
    // the empty path resolves to the root
    let root = f.resolve("").unwrap();
    assert_eq!(root.name(), "");
    assert_eq!(root.name_id, 99);
    // step-by-step lookup agrees with path resolution
    let a = f.get_node_child(root, "Map").unwrap();
    let b = f.get_node_child(a, "Map0").unwrap();
    let c = f.get_node_child(b, "info").unwrap();
    let via_path = f.resolve("Map/Map0/info").unwrap();
    assert_eq!(via_path.name(), c.name());
    assert!(matches!(via_path.value(), NXNodeData::Text(s) if s == "Map"));
    // the first matching sibling wins: "Map" is the empty node, not Int64(42)
    assert_eq!(a.ntype, NXNodeType::Empty);
    assert!(a.has_children());
    // an unmatched segment fails the whole resolution
    assert!(f.resolve("Map/zzz/info").is_none());
    assert!(f.resolve("zzz").is_none());
    // empty segments are skipped
    let d = f.resolve("Map//Map0").unwrap();
    assert_eq!(d.name(), "Map0");
    let e = f.resolve("/Map/").unwrap();
    assert_eq!(e.name(), "Map");
}

#[test]
fn string_table_round_trip() {
    let data = sample();
    let f = NXFile::new(&data).unwrap();
    let h = *f.header();
    for i in 0..h.string_count as usize {
        let slot = h.string_offset as usize + 8 * i;
        let entry_off = u64::from_le_bytes(data[slot..slot + 8].try_into().unwrap()) as usize;
        let len = u16::from_le_bytes(data[entry_off..entry_off + 2].try_into().unwrap()) as usize;
        let bytes = &data[entry_off + 2..entry_off + 2 + len];
        assert_eq!(f.file_data.strings[i].as_bytes(), bytes);
    }
    // a name id outside the table resolves to the empty string, not a fault
    assert_eq!(f.get_root().unwrap().name(), "");
}

#[test]
fn bad_magic_rejected_before_anything_else() {
    let mut data = sample();
    data[3] = b'9'; // "PKG9"
    assert_eq!(NXFile::new(&data).err().unwrap(), NXError::BadMagic);
    // even a container whose tables are garbage reports only the magic
    let mut junk = sample();
    junk[3] = b'9';
    let n = junk.len();
    junk.truncate(n - 30);
    assert_eq!(NXFile::new(&junk).err().unwrap(), NXError::BadMagic);
}

#[test]
fn truncation_is_an_io_error() {
    let data = sample();
    // shorter than the magic tag
    assert_eq!(NXFile::new(&data[..3].to_vec()).err().unwrap(), NXError::IoError);
    // shorter than the header
    assert_eq!(NXFile::new(&data[..51].to_vec()).err().unwrap(), NXError::IoError);
    // node table cut off
    let n = data.len();
    assert_eq!(NXFile::new(&data[..n - 1].to_vec()).err().unwrap(), NXError::IoError);
    // string table pointing past the end
    let mut patched = sample();
    let far = (patched.len() as u64 + 100).to_le_bytes();
    patched[20..28].copy_from_slice(&far);
    assert_eq!(NXFile::new(&patched).err().unwrap(), NXError::IoError);
}

#[test]
fn invalid_utf8_is_fatal() {
    // one string whose bytes are not valid UTF-8
    let mut data = build_container(&["ok"], &[(0, 0, 0, 0, Z)]);
    // the blob for "ok" lives at offset 52: length 2, then the bytes
    data[54] = 0xff;
    data[55] = 0xfe;
    assert_eq!(NXFile::new(&data).err().unwrap(), NXError::InvalidUtf8);
}

#[test]
fn payload_decoding_per_type_tag() {
    let mut int_p = [0u8; 8];
    int_p.copy_from_slice(&(-7i64).to_le_bytes());
    let mut dbl_p = [0u8; 8];
    dbl_p.copy_from_slice(&2.5f64.to_bits().to_le_bytes());
    let mut txt_p = [0u8; 8];
    txt_p[..4].copy_from_slice(&1u32.to_le_bytes());
    let mut vec_p = [0u8; 8];
    vec_p[..4].copy_from_slice(&(-3i32).to_le_bytes());
    vec_p[4..].copy_from_slice(&7i32.to_le_bytes());
    let mut bmp_p = [0u8; 8];
    bmp_p[..4].copy_from_slice(&9u32.to_le_bytes());
    bmp_p[4..6].copy_from_slice(&640u16.to_le_bytes());
    bmp_p[6..].copy_from_slice(&480u16.to_le_bytes());
    let mut aud_p = [0u8; 8];
    aud_p[..4].copy_from_slice(&5u32.to_le_bytes());
    aud_p[4..].copy_from_slice(&44100u32.to_le_bytes());
    let data = build_container(
        &["a", "b"],
        &[
            (0, 0, 0, 0, Z),
            (0, 0, 0, 1, int_p),
            (0, 0, 0, 2, dbl_p),
            (0, 0, 0, 3, txt_p),
            (0, 0, 0, 4, vec_p),
            (0, 0, 0, 5, bmp_p),
            (0, 0, 0, 6, aud_p),
            (0, 0, 0, 99, int_p), // unrecognized tag decodes as Empty
        ],
    );
    let f = NXFile::new(&data).unwrap();
    assert!(matches!(f.nodes[0].value(), NXNodeData::Empty));
    assert!(matches!(f.nodes[1].value(), NXNodeData::Int64(-7)));
    match f.nodes[2].value() {
        NXNodeData::Double(bits) => assert_eq!(f64::from_bits(*bits), 2.5),
        _ => panic!("expected a double"),
    }
    assert!(matches!(f.nodes[3].value(), NXNodeData::Text(s) if s == "b"));
    match f.nodes[4].value() {
        NXNodeData::Vector(v) => {
            assert_eq!(v.x, -3);
            assert_eq!(v.y, 7);
        }
        _ => panic!("expected a vector"),
    }
    match f.nodes[5].value() {
        NXNodeData::Bitmap(b) => {
            assert_eq!((b.id, b.width, b.height), (9, 640, 480));
        }
        _ => panic!("expected a bitmap"),
    }
    match f.nodes[6].value() {
        NXNodeData::Audio(a) => {
            assert_eq!((a.id, a.length), (5, 44100));
        }
        _ => panic!("expected audio"),
    }
    assert_eq!(f.nodes[7].ntype, NXNodeType::Empty);
    assert!(matches!(f.nodes[7].value(), NXNodeData::Empty));
}

#[test]
fn empty_container_has_no_root() {
    let data = build_container(&[], &[]);
    let f = NXFile::new(&data).unwrap();
    assert!(f.get_root().is_none());
    assert!(f.resolve("").is_none());
}
