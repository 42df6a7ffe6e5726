//! Bookkeeping of the weight tensors loaded onto a ggml backend.
use vstd::prelude::*;
use vstd::string::StringExecFns;

use crate::error::{decimal, is_ggml_error, usize_to_decimal, Error};
use crate::ggml_runtime::gguf::{bytes_to_u16_words, bytes_to_u32_words, le_u16_words, le_u32_words, TensorBits, GGML_TYPE_F16, GGML_TYPE_F32};

verus! {

/// The ggml extent of dimension `i` of a tensor of shape `shape`: its
/// extent when it has one among its first four, 1 otherwise.
pub open spec fn ggml_extent(shape: Seq<usize>, i: int) -> i64 {
    if i < shape.len() {
        shape[i] as i64
    } else {
        1
    }
}

/// The four ggml extents of a tensor of shape `shape` and its number of
/// dimensions, between 1 and 4.
pub fn tensor_dims(shape: &Vec<usize>) -> (r: ([i64; 4], i32))
    ensures
        forall|i: int| 0 <= i < 4 ==> r.0@[i] == ggml_extent(shape@, i),
        forall|i: int| 0 <= i < 4 ==> #[trigger] r.0@[i] == if i < shape.len() { shape[i] as i64 } else { 1 },
        r.1 == vstd::math::min(vstd::math::max(shape.len() as int, 1), 4),
{
    let n = shape.len();
    let d0 = if n > 0 { shape[0] as i64 } else { 1 };
    let d1 = if n > 1 { shape[1] as i64 } else { 1 };
    let d2 = if n > 2 { shape[2] as i64 } else { 1 };
    let d3 = if n > 3 { shape[3] as i64 } else { 1 };
    let n_dims: i32 = if n == 0 {
        1
    } else if n > 4 {
        4
    } else {
        n as i32
    };
    ([d0, d1, d2, d3], n_dims)
}

/// The message of tensor `name` whose data has `got` bytes where ggml expects `expected`.
pub open spec fn byte_count_message(name: Seq<char>, got: nat, expected: nat) -> Seq<char> {
    "tensor "@ + name + " data has "@ + decimal(got) + " bytes, ggml expects "@ + decimal(expected)
}

/// Checks that the data read for tensor `name` has the byte count that
/// ggml expects for it.
pub fn check_tensor_bytes(name: &str, got: usize, expected: usize) -> (r: Result<(), Error>)
    ensures
        r is Ok <==> got == expected,
        r matches Err(e) ==> is_ggml_error(e, byte_count_message(name@, got as nat, expected as nat)),
{
    if got != expected {
        let mut message = String::from_str("tensor ");
        message.append(name);
        message.append(" data has ");
        let got_text = usize_to_decimal(got);
        message.append(got_text.as_str());
        message.append(" bytes, ggml expects ");
        let expected_text = usize_to_decimal(expected);
        message.append(expected_text.as_str());
        return Err(Error::Ggml(message));
    }
    Ok(())
}

/// The element values of weight tensor `name` of ggml type `tensor_type`
/// from the `bytes` the backend holds: 32-bit floats for type 0, 16-bit
/// floats for type 1. A byte count that is not a whole number of elements
/// is reported with the tensor's name; another type is not supported.
pub fn weight_tensor_values(name: &str, tensor_type: u32, bytes: &Vec<u8>) -> (r: Result<TensorBits, Error>)
    ensures
        tensor_type == GGML_TYPE_F32 ==> if bytes.len() % 4 == 0 {
            r matches Ok(TensorBits::F32(words)) && words@ == le_u32_words(bytes@)
        } else {
            r matches Err(e) && is_ggml_error(e, "bad f32 tensor byte length for "@ + name@)
        },
        tensor_type == GGML_TYPE_F16 ==> if bytes.len() % 2 == 0 {
            r matches Ok(TensorBits::F16(words)) && words@ == le_u16_words(bytes@)
        } else {
            r matches Err(e) && is_ggml_error(e, "bad f16 tensor byte length for "@ + name@)
        },
        tensor_type != GGML_TYPE_F32 && tensor_type != GGML_TYPE_F16 ==> (r matches Err(
            Error::UnsupportedTensorType { name: n, tensor_type: t },
        ) && n@ == name@ && t == tensor_type),
{
    if tensor_type == GGML_TYPE_F32 {
        match bytes_to_u32_words(bytes) {
            Some(words) => Ok(TensorBits::F32(words)),
            None => {
                let mut message = String::from_str("bad f32 tensor byte length for ");
                message.append(name);
                Err(Error::Ggml(message))
            },
        }
    } else if tensor_type == GGML_TYPE_F16 {
        match bytes_to_u16_words(bytes) {
            Some(words) => Ok(TensorBits::F16(words)),
            None => {
                let mut message = String::from_str("bad f16 tensor byte length for ");
                message.append(name);
                Err(Error::Ggml(message))
            },
        }
    } else {
        Err(Error::UnsupportedTensorType { name: name.to_string(), tensor_type })
    }
}

} // verus!
