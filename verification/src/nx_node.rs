//! Nodes of the container tree and their typed inline payloads.
//!
//! Every node record carries a 16-bit type tag and an 8-byte inline payload;
//! the payload is decoded eagerly at load time into an [`NXNodeData`] value.
//! A node's children are the contiguous index range
//! `[child, child + n_child)` of the global node array.

use vstd::prelude::*;
use crate::error::{NXError, NXScalarKind};
use crate::layout::{le16, le32, le64, le_i32, le_i64};
use crate::layout;
use crate::text;

verus! {

/// The closed set of node type tags of the format.
///
/// On disk the tag is a 16-bit value; values above 6 decode as `Empty`.
#[derive(Clone, Copy, Debug, PartialEq, Eq, Structural)]
pub enum NXNodeType {
    Empty,
    Int64,
    Double,
    Text,
    Vector,
    Bitmap,
    Audio,
}

/// The node type denoted by an on-disk type tag; unrecognized tags are `Empty`.
pub open spec fn type_from_tag(tag: int) -> NXNodeType {
    if tag == 1 {
        NXNodeType::Int64
    } else if tag == 2 {
        NXNodeType::Double
    } else if tag == 3 {
        NXNodeType::Text
    } else if tag == 4 {
        NXNodeType::Vector
    } else if tag == 5 {
        NXNodeType::Bitmap
    } else if tag == 6 {
        NXNodeType::Audio
    } else {
        NXNodeType::Empty
    }
}

impl NXNodeType {
    /// Decodes an on-disk type tag.
    pub fn from_tag(tag: u16) -> (r: NXNodeType)
        ensures
            r == type_from_tag(tag as int),
    {
        match tag {
            1 => NXNodeType::Int64,
            2 => NXNodeType::Double,
            3 => NXNodeType::Text,
            4 => NXNodeType::Vector,
            5 => NXNodeType::Bitmap,
            6 => NXNodeType::Audio,
            _ => NXNodeType::Empty,
        }
    }
}

/// A 2-d vector payload: two 32-bit signed coordinates.
#[derive(Clone, Copy, Debug, PartialEq, Eq, Structural)]
pub struct NXVectorData {
    pub x: i32,
    pub y: i32,
}

impl NXVectorData {
    /// Decodes the 8-byte inline payload: bytes [0, 4) are `x`, [4, 8) are `y`.
    pub fn new(data: &[u8; 8]) -> (r: Self)
        ensures
            r.x == le_i32(data@, 0),
            r.y == le_i32(data@, 4),
    {
        let s = data.as_slice();
        NXVectorData { x: layout::read_i32(s, 0), y: layout::read_i32(s, 4) }
    }
}

/// A bitmap descriptor: asset id plus pixel dimensions.
///
/// The pixel data itself is not stored inline; an external asset loader
/// fetches it by `id`.
#[derive(Clone, Copy, Debug, PartialEq, Eq, Structural)]
pub struct NXBitmapData {
    pub id: u32,
    pub width: u16,
    pub height: u16,
}

impl NXBitmapData {
    /// Decodes the 8-byte inline payload: bytes [0, 4) are the asset id,
    /// [4, 6) the width, [6, 8) the height.
    pub fn new(data: &[u8; 8]) -> (r: Self)
        ensures
            r.id == le32(data@, 0),
            r.width == le16(data@, 4),
            r.height == le16(data@, 6),
    {
        let s = data.as_slice();
        NXBitmapData {
            id: layout::read_u32(s, 0),
            width: layout::read_u16(s, 4),
            height: layout::read_u16(s, 6),
        }
    }
}

/// An audio descriptor: asset id plus sample-data length in bytes.
#[derive(Clone, Copy, Debug, PartialEq, Eq, Structural)]
pub struct NXAudioData {
    pub id: u32,
    pub length: u32,
}

impl NXAudioData {
    /// Decodes the 8-byte inline payload: bytes [0, 4) are the asset id,
    /// [4, 8) the sample-data length.
    pub fn new(data: &[u8; 8]) -> (r: Self)
        ensures
            r.id == le32(data@, 0),
            r.length == le32(data@, 4),
    {
        let s = data.as_slice();
        NXAudioData { id: layout::read_u32(s, 0), length: layout::read_u32(s, 4) }
    }
}

/// A decoded node value: exactly one variant is active per node.
///
/// `Double` holds the raw IEEE-754 bit pattern of the stored 64-bit float;
/// the verified core never interprets those bits arithmetically.
#[derive(Clone)]
pub enum NXNodeData {
    Empty,
    Int64(i64),
    Double(u64),
    Text(String),
    Vector(NXVectorData),
    Bitmap(NXBitmapData),
    Audio(NXAudioData),
}

/// Mathematical model of a node value: `Text` as a character sequence.
#[verifier::ext_equal]
pub enum DataView {
    Empty,
    Int64(i64),
    Double(u64),
    Text(Seq<char>),
    Vector(NXVectorData),
    Bitmap(NXBitmapData),
    Audio(NXAudioData),
}

impl View for NXNodeData {
    type V = DataView;

    open spec fn view(&self) -> DataView {
        match self {
            NXNodeData::Empty => DataView::Empty,
            NXNodeData::Int64(i) => DataView::Int64(*i),
            NXNodeData::Double(bits) => DataView::Double(*bits),
            NXNodeData::Text(s) => DataView::Text(s@),
            NXNodeData::Vector(v) => DataView::Vector(*v),
            NXNodeData::Bitmap(b) => DataView::Bitmap(*b),
            NXNodeData::Audio(a) => DataView::Audio(*a),
        }
    }
}

/// The type tag that corresponds to a stored value.
pub open spec fn data_kind(d: DataView) -> NXNodeType {
    match d {
        DataView::Empty => NXNodeType::Empty,
        DataView::Int64(_) => NXNodeType::Int64,
        DataView::Double(_) => NXNodeType::Double,
        DataView::Text(_) => NXNodeType::Text,
        DataView::Vector(_) => NXNodeType::Vector,
        DataView::Bitmap(_) => NXNodeType::Bitmap,
        DataView::Audio(_) => NXNodeType::Audio,
    }
}

impl NXNodeData {
    /// The type tag that corresponds to this value.
    pub fn kind(&self) -> (r: NXNodeType)
        ensures
            r == data_kind(self@),
    {
        match self {
            NXNodeData::Empty => NXNodeType::Empty,
            NXNodeData::Int64(_) => NXNodeType::Int64,
            NXNodeData::Double(_) => NXNodeType::Double,
            NXNodeData::Text(_) => NXNodeType::Text,
            NXNodeData::Vector(_) => NXNodeType::Vector,
            NXNodeData::Bitmap(_) => NXNodeType::Bitmap,
            NXNodeData::Audio(_) => NXNodeType::Audio,
        }
    }
}

/// The string with the given id, or the empty string when the id is out of
/// range (a non-fatal condition of the format).
pub open spec fn string_at(strings: Seq<Seq<char>>, id: int) -> Seq<char> {
    if 0 <= id < strings.len() {
        strings[id]
    } else {
        Seq::empty()
    }
}

/// The value denoted by an 8-byte inline payload under a node type, with
/// `Text` payloads resolved through the string table.
pub open spec fn data_spec(ntype: NXNodeType, payload: Seq<u8>, strings: Seq<Seq<char>>) -> DataView
    recommends
        payload.len() == 8,
{
    match ntype {
        NXNodeType::Empty => DataView::Empty,
        NXNodeType::Int64 => DataView::Int64(le_i64(payload, 0)),
        NXNodeType::Double => DataView::Double(le64(payload, 0) as u64),
        NXNodeType::Text => DataView::Text(string_at(strings, le32(payload, 0))),
        NXNodeType::Vector => DataView::Vector(
            NXVectorData { x: le_i32(payload, 0), y: le_i32(payload, 4) },
        ),
        NXNodeType::Bitmap => DataView::Bitmap(
            NXBitmapData {
                id: le32(payload, 0) as u32,
                width: le16(payload, 4) as u16,
                height: le16(payload, 6) as u16,
            },
        ),
        NXNodeType::Audio => DataView::Audio(
            NXAudioData { id: le32(payload, 0) as u32, length: le32(payload, 4) as u32 },
        ),
    }
}

/// What requesting text of a value yields: text itself, or the decimal
/// rendering of a 64-bit integer. Anything else is a mismatch — including
/// a stored double, whose rendering is floating-point work that the
/// reader's embedding performs on the raw bits.
pub open spec fn coerce_text_spec(d: DataView) -> Result<Seq<char>, NXError> {
    match d {
        DataView::Text(s) => Ok(s),
        DataView::Int64(i) => Ok(text::int_dec_of(i as int)),
        _ => Err(NXError::TypeMismatch { requested: NXScalarKind::Text, actual: data_kind(d) }),
    }
}

/// What requesting a 64-bit integer yields: the integer itself, or a parse
/// of a text value (`ParseError` when the text is not an in-range decimal
/// integer). Anything else is a mismatch.
pub open spec fn coerce_int64_spec(d: DataView) -> Result<i64, NXError> {
    match d {
        DataView::Int64(i) => Ok(i),
        DataView::Text(s) => if text::is_int_text(s) && i64::MIN <= text::int_text_val(s)
            <= i64::MAX {
            Ok(text::int_text_val(s) as i64)
        } else {
            Err(NXError::ParseError)
        },
        _ => Err(NXError::TypeMismatch { requested: NXScalarKind::Int64, actual: data_kind(d) }),
    }
}

/// What the boolean view of a value yields: a number is true exactly when
/// it is nonzero — for a stored double that is every bit pattern other than
/// positive or negative zero — and text reads through [`text::text_truth`].
/// Anything else is a mismatch.
pub open spec fn coerce_bool_spec(d: DataView) -> Result<bool, NXError> {
    match d {
        DataView::Int64(i) => Ok(i != 0),
        DataView::Double(bits) => Ok(bits & 0x7fff_ffff_ffff_ffff != 0),
        DataView::Text(s) => Ok(text::text_truth(s)),
        _ => Err(NXError::TypeMismatch { requested: NXScalarKind::Bool, actual: data_kind(d) }),
    }
}

/// What requesting the stored double yields: its raw bit pattern. Anything
/// else is a mismatch; in particular, parsing text into a double is
/// floating-point work that the reader's embedding performs.
pub open spec fn coerce_double_bits_spec(d: DataView) -> Result<u64, NXError> {
    match d {
        DataView::Double(bits) => Ok(bits),
        _ => Err(NXError::TypeMismatch { requested: NXScalarKind::Double, actual: data_kind(d) }),
    }
}

impl NXNodeData {
    /// The text form of the value, per [`coerce_text_spec`].
    pub fn as_text(&self) -> (r: Result<String, NXError>)
        ensures
            match r {
                Ok(s) => coerce_text_spec(self@) == Ok::<Seq<char>, NXError>(s@),
                Err(e) => coerce_text_spec(self@) == Err::<Seq<char>, NXError>(e),
            },
    {
        match self {
            NXNodeData::Text(s) => Ok(s.clone()),
            NXNodeData::Int64(i) => Ok(text::i64_to_string(*i)),
            _ => Err(
                NXError::TypeMismatch { requested: NXScalarKind::Text, actual: self.kind() },
            ),
        }
    }

    /// The 64-bit integer form of the value, per [`coerce_int64_spec`].
    pub fn as_int64(&self) -> (r: Result<i64, NXError>)
        ensures
            match r {
                Ok(v) => coerce_int64_spec(self@) == Ok::<i64, NXError>(v),
                Err(e) => coerce_int64_spec(self@) == Err::<i64, NXError>(e),
            },
    {
        match self {
            NXNodeData::Int64(i) => Ok(*i),
            NXNodeData::Text(s) => text::parse_i64(s.as_str()),
            _ => Err(
                NXError::TypeMismatch { requested: NXScalarKind::Int64, actual: self.kind() },
            ),
        }
    }

    /// The boolean view of the value, per [`coerce_bool_spec`].
    pub fn as_bool(&self) -> (r: Result<bool, NXError>)
        ensures
            match r {
                Ok(v) => coerce_bool_spec(self@) == Ok::<bool, NXError>(v),
                Err(e) => coerce_bool_spec(self@) == Err::<bool, NXError>(e),
            },
    {
        match self {
            NXNodeData::Int64(i) => Ok(*i != 0),
            NXNodeData::Double(bits) => Ok((*bits & 0x7fff_ffff_ffff_ffff) != 0),
            NXNodeData::Text(s) => Ok(text::text_truth_exec(s.as_str())),
            _ => Err(
                NXError::TypeMismatch { requested: NXScalarKind::Bool, actual: self.kind() },
            ),
        }
    }

    /// The raw bit pattern of a stored double, per
    /// [`coerce_double_bits_spec`].
    pub fn as_double_bits(&self) -> (r: Result<u64, NXError>)
        ensures
            match r {
                Ok(v) => coerce_double_bits_spec(self@) == Ok::<u64, NXError>(v),
                Err(e) => coerce_double_bits_spec(self@) == Err::<u64, NXError>(e),
            },
    {
        match self {
            NXNodeData::Double(bits) => Ok(*bits),
            _ => Err(
                NXError::TypeMismatch { requested: NXScalarKind::Double, actual: self.kind() },
            ),
        }
    }
}

/// One entry of the flat node table.
#[derive(Clone)]
pub struct NXNode {
    /// Index of the display name in the string table.
    pub name_id: u32,
    /// Display name, resolved at load time; out-of-range ids resolve to "".
    pub name: String,
    /// Global index of the first child.
    pub child: u32,
    /// Number of children; they occupy `[child, child + n_child)`.
    pub n_child: u16,
    /// The decoded type tag.
    pub ntype: NXNodeType,
    /// The decoded inline payload.
    pub data: NXNodeData,
}

/// Mathematical model of a node.
#[verifier::ext_equal]
pub struct NodeView {
    pub name_id: u32,
    pub name: Seq<char>,
    pub child: u32,
    pub n_child: u16,
    pub ntype: NXNodeType,
    pub data: DataView,
}

impl View for NXNode {
    type V = NodeView;

    open spec fn view(&self) -> NodeView {
        NodeView {
            name_id: self.name_id,
            name: self.name@,
            child: self.child,
            n_child: self.n_child,
            ntype: self.ntype,
            data: self.data@,
        }
    }
}

impl NXNode {
    /// Whether the node declares at least one child.
    pub fn has_children(&self) -> (r: bool)
        ensures
            r == (self.n_child > 0),
    {
        self.n_child > 0
    }

    /// The node's display name.
    pub fn name(&self) -> (r: &String)
        ensures
            r@ == self@.name,
    {
        &self.name
    }

    /// The node's decoded value.
    pub fn value(&self) -> (r: &NXNodeData)
        ensures
            r@ == self@.data,
    {
        &self.data
    }
}

} // verus!
