//! Bookkeeping of GGUF model files: tensor lookups, byte ranges, shapes and
//! the raw element values of tensors.
use vstd::prelude::*;

use crate::error::Error;

verus! {

/// A ggml tensor type, as the GGUF file stores it.
#[derive(Debug, Clone, Copy, PartialEq, Eq)]
pub struct TensorType(pub u32);

impl TensorType {
    /// The stored type number.
    pub fn raw(&self) -> (r: u32)
        ensures
            r == self.0,
    {
        self.0
    }
}

/// Type number of 32-bit float tensors.
pub const GGML_TYPE_F32: u32 = 0;
/// Type number of 16-bit float tensors.
pub const GGML_TYPE_F16: u32 = 1;

/// What a GGUF file says of one tensor.
#[derive(Debug, Clone, PartialEq, Eq)]
pub struct TensorInfo {
    pub index: i64,
    pub name: String,
    pub tensor_type: TensorType,
    pub offset: usize,
    pub size: usize,
}

/// Checks that `index` names one of the `count` tensors of a file.
pub fn check_tensor_index(index: i64, count: i64) -> (r: Result<(), Error>)
    ensures
        r is Ok <==> 0 <= index < count,
        r matches Err(e) ==> e == Error::TensorIndex(index),
{
    if index < 0 || index >= count {
        return Err(Error::TensorIndex(index));
    }
    Ok(())
}

/// The description of tensor `index`, whose name the file may lack.
pub fn tensor_info(index: i64, name: Option<String>, tensor_type: u32, offset: usize, size: usize) -> (r: Result<
    TensorInfo,
    Error,
>)
    ensures
        match name {
            None => r == Err::<TensorInfo, Error>(Error::MissingTensorName(index)),
            Some(n) => r == Ok::<TensorInfo, Error>(
                TensorInfo { index, name: n, tensor_type: TensorType(tensor_type), offset, size },
            ),
        },
{
    match name {
        None => Err(Error::MissingTensorName(index)),
        Some(name) => Ok(TensorInfo { index, name, tensor_type: TensorType(tensor_type), offset, size }),
    }
}

/// A lookup's index: found when it is not negative.
pub fn found_index(index: i64) -> (r: Option<i64>)
    ensures
        r == (if index >= 0 { Some(index) } else { None::<i64> }),
{
    if index >= 0 {
        Some(index)
    } else {
        None
    }
}

/// The tensor a lookup by `name` found, or the error that names it missing.
pub fn tensor_or_missing(found: Option<TensorInfo>, name: &str) -> (r: Result<TensorInfo, Error>)
    ensures
        match found {
            Some(t) => r == Ok::<TensorInfo, Error>(t),
            None => r matches Err(Error::MissingTensor(n)) && n@ == name@,
        },
{
    match found {
        Some(t) => Ok(t),
        None => Err(Error::MissingTensor(name.to_string())),
    }
}

/// Where the data of a tensor at `offset` in the data section, which starts
/// at `data_offset`, begins in the file. Fails when the position does not
/// fit in a `usize`.
pub fn tensor_data_start(data_offset: usize, tensor: &TensorInfo, path: std::path::PathBuf) -> (r: Result<
    usize,
    Error,
>)
    ensures
        r is Ok <==> data_offset + tensor.offset <= usize::MAX,
        r matches Ok(start) ==> start == data_offset + tensor.offset,
        r matches Err(e) ==> e == (Error::InvalidTensorRange { path, offset: tensor.offset, size: tensor.size }),
{
    match data_offset.checked_add(tensor.offset) {
        Some(start) => Ok(start),
        None => Err(Error::InvalidTensorRange { path, offset: tensor.offset, size: tensor.size }),
    }
}

/// Checks that the `size` bytes of a tensor from byte `start` on lie inside
/// a file of `file_len` bytes, and gives the byte after them.
pub fn tensor_data_end(start: usize, size: usize, file_len: usize, path: std::path::PathBuf) -> (r: Result<
    usize,
    Error,
>)
    ensures
        r is Ok <==> start + size <= file_len,
        r matches Ok(end) ==> end == start + size,
        r matches Err(e) ==> e == (Error::InvalidTensorRange { path, offset: start, size }),
{
    match start.checked_add(size) {
        Some(end) => {
            if end > file_len {
                Err(Error::InvalidTensorRange { path, offset: start, size })
            } else {
                Ok(end)
            }
        },
        None => Err(Error::InvalidTensorRange { path, offset: start, size }),
    }
}

/// The extents of a tensor that its shape keeps: the first one, then every
/// later one above 1, each as a `usize`.
pub open spec fn kept_extents(ne: Seq<i64>) -> Seq<usize> {
    seq![ne[0] as usize] + ne.subrange(1, 4).filter(|d: i64| d > 1).map_values(|d: i64| d as usize)
}

/// `s` without its trailing entries equal to 1, its first entry excepted.
pub open spec fn drop_trailing_ones(s: Seq<usize>) -> Seq<usize>
    decreases s.len(),
{
    if s.len() > 1 && s.last() == 1 {
        drop_trailing_ones(s.drop_last())
    } else {
        s
    }
}

/// The shape of a tensor with ggml extents `ne`.
pub open spec fn normalized_shape(ne: Seq<i64>) -> Seq<usize> {
    drop_trailing_ones(kept_extents(ne))
}

/// The shape of a tensor from its four ggml extents: the first extent, then
/// every later extent above 1, and no trailing extent of 1 unless it is the
/// only one.
pub fn normalize_shape(ne: [i64; 4]) -> (shape: Vec<usize>)
    ensures
        shape@ == normalized_shape(ne@),
        (forall|i: int| 0 <= i < 4 ==> #[trigger] ne[i] <= usize::MAX) ==> shape@ == seq![ne[0] as usize]
            + later_extent(ne[1]) + later_extent(ne[2]) + later_extent(ne[3]),
{
    proof {
        if forall|i: int| 0 <= i < 4 ==> #[trigger] ne[i] <= usize::MAX {
            lemma_normalized_shape_entries(ne@);
        }
    }
    let mut shape: Vec<usize> = Vec::new();
    for i in 0..4usize
        invariant
            i == 0 ==> shape@.len() == 0,
            i > 0 ==> shape@ == seq![ne@[0] as usize] + ne@.subrange(1, i as int).filter(|d: i64| d > 1).map_values(
                |d: i64| d as usize,
            ),
    {
        let dim = ne[i];
        let ghost before = shape@;
        if dim > 1 || shape.len() == 0 {
            shape.push(dim as usize);
        }
        proof {
            if i > 0 {
                let prev = ne@.subrange(1, i as int);
                let next = ne@.subrange(1, i as int + 1);
                assert(next =~= prev.push(dim));
                prev.lemma_filter_push(dim, |d: i64| d > 1);
                if dim > 1 {
                    assert(next.filter(|d: i64| d > 1) == prev.filter(|d: i64| d > 1).push(dim));
                    assert(shape@ =~= seq![ne@[0] as usize] + next.filter(|d: i64| d > 1).map_values(
                        |d: i64| d as usize,
                    ));
                } else {
                    assert(next.filter(|d: i64| d > 1) == prev.filter(|d: i64| d > 1));
                }
            } else {
                reveal_with_fuel(Seq::filter, 1);
                assert(shape@ =~= seq![ne@[0] as usize] + ne@.subrange(1, 1).filter(|d: i64| d > 1).map_values(
                    |d: i64| d as usize,
                ));
            }
        }
    }
    while shape.len() > 1 && shape[shape.len() - 1] == 1
        invariant
            drop_trailing_ones(shape@) == normalized_shape(ne@),
        decreases shape.len(),
    {
        assert(drop_trailing_ones(shape@) == drop_trailing_ones(shape@.drop_last()));
        shape.pop();
    }
    shape
}

/// The shape entry an extent after the first gives: itself when above 1,
/// none otherwise.
pub open spec fn later_extent(d: i64) -> Seq<usize> {
    if d > 1 {
        seq![d as usize]
    } else {
        Seq::empty()
    }
}

/// The shape of a tensor whose extents fit in a `usize` is its first
/// extent, then its later extents that are above 1, in order.
pub proof fn lemma_normalized_shape_entries(ne: Seq<i64>)
    requires
        ne.len() == 4,
        forall|i: int| 0 <= i < 4 ==> #[trigger] ne[i] <= usize::MAX,
    ensures
        normalized_shape(ne) == seq![ne[0] as usize] + later_extent(ne[1]) + later_extent(ne[2]) + later_extent(
            ne[3],
        ),
{
    let f = |d: i64| d > 1;
    let r = ne.subrange(1, 4);
    let e = Seq::<i64>::empty();
    assert(e.filter(f) =~= Seq::<i64>::empty()) by {
        reveal_with_fuel(Seq::filter, 1);
    }
    assert(r =~= e.push(ne[1]).push(ne[2]).push(ne[3]));
    e.lemma_filter_push(ne[1], f);
    e.push(ne[1]).lemma_filter_push(ne[2], f);
    e.push(ne[1]).push(ne[2]).lemma_filter_push(ne[3], f);
    let kept = kept_extents(ne);
    let want = seq![ne[0] as usize] + later_extent(ne[1]) + later_extent(ne[2]) + later_extent(ne[3]);
    assert(r.filter(f).map_values(|d: i64| d as usize) =~= later_extent(ne[1]) + later_extent(ne[2])
        + later_extent(ne[3]));
    assert(kept =~= want);
    assert(ne[1] <= usize::MAX && ne[2] <= usize::MAX && ne[3] <= usize::MAX);
    if kept.len() > 1 {
        assert(kept.last() > 1);
    }
    assert(drop_trailing_ones(kept) == kept);
}

/// Number of elements of a tensor of shape `shape`.
pub open spec fn element_count(shape: Seq<usize>) -> int
    decreases shape.len(),
{
    if shape.len() == 0 {
        1
    } else {
        element_count(shape.drop_last()) * shape.last()
    }
}

/// Product of ggml extents.
pub open spec fn extent_product(ne: Seq<i64>) -> int
    decreases ne.len(),
{
    if ne.len() == 0 {
        1
    } else {
        extent_product(ne.drop_last()) * ne.last()
    }
}

/// Dropping the extents of 1 keeps the product of positive extents.
proof fn lemma_filter_keeps_product(ne: Seq<i64>)
    requires
        forall|i: int| 0 <= i < ne.len() ==> ne[i] >= 1,
    ensures
        extent_product(ne.filter(|d: i64| d > 1)) == extent_product(ne),
    decreases ne.len(),
{
    if ne.len() > 0 {
        let init = ne.drop_last();
        lemma_filter_keeps_product(init);
        assert(ne == init.push(ne.last()));
        init.lemma_filter_push(ne.last(), |d: i64| d > 1);
        if ne.last() > 1 {
            assert(init.filter(|d: i64| d > 1).push(ne.last()).drop_last() == init.filter(|d: i64| d > 1));
        }
    }
}

/// Extents within `usize` count the same as a `usize` shape.
proof fn lemma_cast_keeps_product(ne: Seq<i64>)
    requires
        forall|i: int| 0 <= i < ne.len() ==> 0 <= #[trigger] ne[i] <= usize::MAX,
    ensures
        element_count(ne.map_values(|d: i64| d as usize)) == extent_product(ne),
    decreases ne.len(),
{
    if ne.len() > 0 {
        lemma_cast_keeps_product(ne.drop_last());
        assert(ne.map_values(|d: i64| d as usize).drop_last() == ne.drop_last().map_values(|d: i64| d as usize));
    }
}

/// Putting an extent in front multiplies the element count by it.
proof fn lemma_count_prepend(x: usize, shape: Seq<usize>)
    ensures
        element_count(seq![x] + shape) == x * element_count(shape),
    decreases shape.len(),
{
    let whole = seq![x] + shape;
    if shape.len() == 0 {
        assert(whole =~= seq![x]);
        assert(whole.drop_last() =~= Seq::<usize>::empty());
        assert(element_count(whole.drop_last()) == 1);
        assert(element_count(whole) == element_count(whole.drop_last()) * x);
    } else {
        let init = shape.drop_last();
        lemma_count_prepend(x, init);
        assert(whole.drop_last() =~= seq![x] + init);
        assert(whole.last() == shape.last());
        assert(element_count(whole) == element_count(seq![x] + init) * shape.last());
        assert(element_count(shape) == element_count(init) * shape.last());
        vstd::arithmetic::mul::lemma_mul_is_associative(
            x as int,
            element_count(init),
            shape.last() as int,
        );
    }
}

/// The shape of a tensor whose four ggml extents are positive and fit in a
/// `usize` counts as many elements as the extents do.
pub proof fn lemma_normalized_shape_keeps_elements(ne: Seq<i64>)
    requires
        ne.len() == 4,
        forall|i: int| 0 <= i < 4 ==> 1 <= #[trigger] ne[i] <= usize::MAX,
    ensures
        element_count(normalized_shape(ne)) == ne[0] * ne[1] * ne[2] * ne[3],
{
    let rest = ne.subrange(1, 4);
    let filtered = rest.filter(|d: i64| d > 1);
    lemma_filter_keeps_product(rest);
    broadcast use vstd::seq_lib::group_filter_ensures;
    assert forall|i: int| 0 <= i < filtered.len() implies 1 < #[trigger] filtered[i] <= usize::MAX by {
        rest.lemma_filter_pred(|d: i64| d > 1, i);
        assert(filtered.contains(filtered[i]));
        rest.lemma_filter_contains_rev(|d: i64| d > 1, filtered[i]);
    }
    lemma_cast_keeps_product(filtered);
    let mapped = filtered.map_values(|d: i64| d as usize);
    lemma_count_prepend(ne[0] as usize, mapped);
    let kept = kept_extents(ne);
    assert(kept == seq![ne[0] as usize] + mapped);
    if kept.len() > 1 {
        assert(kept.last() == mapped.last());
        assert(mapped.last() > 1);
    }
    assert(normalized_shape(ne) == kept);
    assert(rest =~= seq![ne[1], ne[2], ne[3]]);
    assert(extent_product(rest) == ne[1] * ne[2] * ne[3]) by {
        reveal_with_fuel(extent_product, 4);
        assert(rest.drop_last() =~= seq![ne[1], ne[2]]);
        assert(rest.drop_last().drop_last() =~= seq![ne[1]]);
        assert(rest.drop_last().drop_last().drop_last() =~= Seq::<i64>::empty());
    }
    vstd::arithmetic::mul::lemma_mul_is_associative(ne[0] as int, ne[1] * ne[2], ne[3] as int);
    vstd::arithmetic::mul::lemma_mul_is_associative(ne[0] as int, ne[1] as int, ne[2] as int);
}

/// Raw element values of a tensor: the bits of each 32-bit or 16-bit float.
#[derive(Debug, Clone, PartialEq, Eq)]
pub enum TensorBits {
    F32(Vec<u32>),
    F16(Vec<u16>),
}

/// The 32-bit little-endian words of `bytes`.
pub open spec fn le_u32_words(bytes: Seq<u8>) -> Seq<u32> {
    Seq::new(
        (bytes.len() / 4) as nat,
        |i: int|
            (bytes[4 * i] + 256 * bytes[4 * i + 1] + 65536 * bytes[4 * i + 2] + 16777216 * bytes[4 * i + 3]) as u32,
    )
}

/// The 16-bit little-endian words of `bytes`.
pub open spec fn le_u16_words(bytes: Seq<u8>) -> Seq<u16> {
    Seq::new((bytes.len() / 2) as nat, |i: int| (bytes[2 * i] + 256 * bytes[2 * i + 1]) as u16)
}

/// Reads `bytes` as 32-bit little-endian words, when their number is a
/// multiple of 4.
pub fn bytes_to_u32_words(bytes: &Vec<u8>) -> (r: Option<Vec<u32>>)
    ensures
        r is Some <==> bytes.len() % 4 == 0,
        r matches Some(words) ==> words@ == le_u32_words(bytes@),
        r matches Some(words) ==> words.len() == bytes.len() / 4 && forall|i: int|
            0 <= i < words.len() ==> #[trigger] words[i] == bytes[4 * i] + 256 * bytes[4 * i + 1] + 65536 * bytes[4
                * i + 2] + 16777216 * bytes[4 * i + 3],
{
    if bytes.len() % 4 != 0 {
        return None;
    }
    let n = bytes.len() / 4;
    let mut words: Vec<u32> = Vec::new();
    for i in 0..n
        invariant
            n == bytes.len() / 4,
            bytes.len() % 4 == 0,
            words@ =~= le_u32_words(bytes@).take(i as int),
    {
        let word = bytes[4 * i] as u32 + 256 * (bytes[4 * i + 1] as u32) + 65536 * (bytes[4 * i + 2] as u32)
            + 16777216 * (bytes[4 * i + 3] as u32);
        words.push(word);
    }
    assert(words@ =~= le_u32_words(bytes@));
    Some(words)
}

/// Reads `bytes` as 16-bit little-endian words, when their number is even.
pub fn bytes_to_u16_words(bytes: &Vec<u8>) -> (r: Option<Vec<u16>>)
    ensures
        r is Some <==> bytes.len() % 2 == 0,
        r matches Some(words) ==> words@ == le_u16_words(bytes@),
        r matches Some(words) ==> words.len() == bytes.len() / 2 && forall|i: int|
            0 <= i < words.len() ==> #[trigger] words[i] == bytes[2 * i] + 256 * bytes[2 * i + 1],
{
    if bytes.len() % 2 != 0 {
        return None;
    }
    let n = bytes.len() / 2;
    let mut words: Vec<u16> = Vec::new();
    for i in 0..n
        invariant
            n == bytes.len() / 2,
            bytes.len() % 2 == 0,
            words@ =~= le_u16_words(bytes@).take(i as int),
    {
        let word = bytes[2 * i] as u16 + 256 * (bytes[2 * i + 1] as u16);
        words.push(word);
    }
    assert(words@ =~= le_u16_words(bytes@));
    Some(words)
}

/// The element values of tensor `tensor` of a GGUF file from its `bytes`:
/// 32-bit floats when its type is 0, 16-bit floats when it is 1. A byte
/// count that is not a whole number of elements is an invalid range of the
/// file at `path`; another type is not supported.
pub fn gguf_tensor_values(tensor: &TensorInfo, name: &str, bytes: &Vec<u8>, path: std::path::PathBuf) -> (r: Result<
    TensorBits,
    Error,
>)
    ensures
        tensor.tensor_type.0 == GGML_TYPE_F32 ==> if bytes.len() % 4 == 0 {
            r matches Ok(TensorBits::F32(words)) && words@ == le_u32_words(bytes@)
        } else {
            r == Err::<TensorBits, Error>(
                Error::InvalidTensorRange { path, offset: tensor.offset, size: tensor.size },
            )
        },
        tensor.tensor_type.0 == GGML_TYPE_F16 ==> if bytes.len() % 2 == 0 {
            r matches Ok(TensorBits::F16(words)) && words@ == le_u16_words(bytes@)
        } else {
            r == Err::<TensorBits, Error>(
                Error::InvalidTensorRange { path, offset: tensor.offset, size: tensor.size },
            )
        },
        tensor.tensor_type.0 != GGML_TYPE_F32 && tensor.tensor_type.0 != GGML_TYPE_F16 ==> (r matches Err(
            Error::UnsupportedTensorType { name: n, tensor_type: t },
        ) && n@ == name@ && t == tensor.tensor_type.0),
{
    let tensor_type = tensor.tensor_type.raw();
    if tensor_type == GGML_TYPE_F32 {
        match bytes_to_u32_words(bytes) {
            Some(words) => Ok(TensorBits::F32(words)),
            None => Err(Error::InvalidTensorRange { path, offset: tensor.offset, size: tensor.size }),
        }
    } else if tensor_type == GGML_TYPE_F16 {
        match bytes_to_u16_words(bytes) {
            Some(words) => Ok(TensorBits::F16(words)),
            None => Err(Error::InvalidTensorRange { path, offset: tensor.offset, size: tensor.size }),
        }
    } else {
        Err(Error::UnsupportedTensorType { name: name.to_string(), tensor_type })
    }
}

} // verus!
