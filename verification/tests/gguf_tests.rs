use std::path::PathBuf;

use stable_audio::ggml_runtime::gguf::{
    bytes_to_u16_words, bytes_to_u32_words, check_tensor_index, found_index, gguf_tensor_values,
    normalize_shape, tensor_data_end, tensor_data_start, tensor_info, tensor_or_missing, TensorBits,
    TensorInfo, TensorType, GGML_TYPE_F16, GGML_TYPE_F32,
};
use stable_audio::ggml_runtime::weights::{check_tensor_bytes, tensor_dims, weight_tensor_values};
use stable_audio::Error;

fn info(tensor_type: u32, offset: usize, size: usize) -> TensorInfo {
    TensorInfo { index: 3, name: "w".to_string(), tensor_type: TensorType(tensor_type), offset, size }
}

#[test]
fn tensor_index_must_be_in_range() {
    assert!(check_tensor_index(0, 2).is_ok());
    assert!(check_tensor_index(1, 2).is_ok());
    assert!(matches!(check_tensor_index(2, 2), Err(Error::TensorIndex(2))));
    assert!(matches!(check_tensor_index(-1, 2), Err(Error::TensorIndex(-1))));
}

#[test]
fn tensor_info_needs_a_name() {
    let t = tensor_info(4, Some("dit.w".to_string()), GGML_TYPE_F16, 64, 128).unwrap();
    assert_eq!(t, TensorInfo { index: 4, name: "dit.w".to_string(), tensor_type: TensorType(1), offset: 64, size: 128 });
    assert_eq!(t.tensor_type.raw(), 1);
    assert!(matches!(tensor_info(4, None, 0, 0, 0), Err(Error::MissingTensorName(4))));
}

#[test]
fn lookups_report_missing_tensors() {
    assert_eq!(found_index(5), Some(5));
    assert_eq!(found_index(-1), None);
    assert_eq!(tensor_or_missing(Some(info(0, 0, 4)), "w").unwrap(), info(0, 0, 4));
    match tensor_or_missing(None, "decoder.ly.1.weight") {
        Err(Error::MissingTensor(n)) => assert_eq!(n, "decoder.ly.1.weight"),
        other => panic!("unexpected {:?}", other),
    }
}

#[test]
fn tensor_ranges_stay_inside_the_file() {
    let path = PathBuf::from("model.gguf");
    assert_eq!(tensor_data_start(100, &info(0, 28, 8), path.clone()).unwrap(), 128);
    match tensor_data_start(usize::MAX, &info(0, 1, 8), path.clone()) {
        Err(Error::InvalidTensorRange { path: p, offset, size }) => {
            assert_eq!(p, path);
            assert_eq!((offset, size), (1, 8));
        }
        other => panic!("unexpected {:?}", other),
    }
    assert_eq!(tensor_data_end(128, 8, 136, path.clone()).unwrap(), 136);
    assert!(matches!(
        tensor_data_end(128, 9, 136, path.clone()),
        Err(Error::InvalidTensorRange { offset: 128, size: 9, .. })
    ));
    assert!(matches!(
        tensor_data_end(usize::MAX, 1, usize::MAX, path),
        Err(Error::InvalidTensorRange { .. })
    ));
}

#[test]
fn shapes_drop_unit_extents() {
    assert_eq!(normalize_shape([768, 256, 1, 1]), vec![768, 256]);
    assert_eq!(normalize_shape([768, 1, 1, 1]), vec![768]);
    assert_eq!(normalize_shape([1, 1, 1, 1]), vec![1]);
    assert_eq!(normalize_shape([4, 1, 3, 1]), vec![4, 3]);
    assert_eq!(normalize_shape([1, 5, 1, 2]), vec![1, 5, 2]);
}

#[test]
fn shapes_keep_the_element_count() {
    for ne in [[768i64, 256, 1, 1], [1, 5, 1, 2], [4, 1, 3, 7], [1, 1, 1, 1]] {
        let count: i64 = ne.iter().product();
        let shape = normalize_shape(ne);
        assert_eq!(shape.iter().product::<usize>() as i64, count);
    }
}

#[test]
fn bytes_read_as_little_endian_words() {
    assert_eq!(bytes_to_u32_words(&vec![1, 0, 0, 0, 0, 0, 128, 63]), Some(vec![1, 0x3f80_0000]));
    assert_eq!(bytes_to_u32_words(&vec![1, 2, 3]), None);
    assert_eq!(bytes_to_u16_words(&vec![0, 60, 1, 2]), Some(vec![0x3c00, 0x0201]));
    assert_eq!(bytes_to_u16_words(&vec![1]), None);
    assert_eq!(bytes_to_u32_words(&vec![]), Some(vec![]));
}

#[test]
fn f32_bits_decode_to_floats() {
    let bytes = 1.5f32.to_le_bytes().to_vec();
    let words = bytes_to_u32_words(&bytes).unwrap();
    assert_eq!(f32::from_bits(words[0]), 1.5);
}

#[test]
fn gguf_tensor_values_follow_the_type() {
    let path = PathBuf::from("m.gguf");
    assert_eq!(
        gguf_tensor_values(&info(GGML_TYPE_F32, 0, 4), "w", &vec![0, 0, 128, 63], path.clone()).unwrap(),
        TensorBits::F32(vec![0x3f80_0000])
    );
    assert_eq!(
        gguf_tensor_values(&info(GGML_TYPE_F16, 0, 2), "w", &vec![0, 60], path.clone()).unwrap(),
        TensorBits::F16(vec![0x3c00])
    );
    assert!(matches!(
        gguf_tensor_values(&info(GGML_TYPE_F32, 8, 3), "w", &vec![0, 0, 0], path.clone()),
        Err(Error::InvalidTensorRange { offset: 8, size: 3, .. })
    ));
    match gguf_tensor_values(&info(8, 0, 4), "q8", &vec![0, 0, 0, 0], path) {
        Err(Error::UnsupportedTensorType { name, tensor_type }) => {
            assert_eq!(name, "q8");
            assert_eq!(tensor_type, 8);
        }
        other => panic!("unexpected {:?}", other),
    }
}

#[test]
fn weight_values_follow_the_type() {
    assert_eq!(weight_tensor_values("w", GGML_TYPE_F16, &vec![0, 60]).unwrap(), TensorBits::F16(vec![0x3c00]));
    match weight_tensor_values("w", GGML_TYPE_F16, &vec![0]) {
        Err(Error::Ggml(m)) => assert_eq!(m, "bad f16 tensor byte length for w"),
        other => panic!("unexpected {:?}", other),
    }
    match weight_tensor_values("w", GGML_TYPE_F32, &vec![0, 0]) {
        Err(Error::Ggml(m)) => assert_eq!(m, "bad f32 tensor byte length for w"),
        other => panic!("unexpected {:?}", other),
    }
    assert!(matches!(
        weight_tensor_values("w", 2, &vec![]),
        Err(Error::UnsupportedTensorType { tensor_type: 2, .. })
    ));
}

#[test]
fn tensor_dims_pad_to_four_extents() {
    assert_eq!(tensor_dims(&vec![768, 256]), ([768, 256, 1, 1], 2));
    assert_eq!(tensor_dims(&vec![]), ([1, 1, 1, 1], 1));
    assert_eq!(tensor_dims(&vec![2, 3, 4, 5, 6]), ([2, 3, 4, 5], 4));
}

#[test]
fn byte_counts_are_checked() {
    assert!(check_tensor_bytes("w", 16, 16).is_ok());
    match check_tensor_bytes("dit.w", 15, 16) {
        Err(Error::Ggml(m)) => assert_eq!(m, "tensor dit.w data has 15 bytes, ggml expects 16"),
        other => panic!("unexpected {:?}", other),
    }
    match check_tensor_bytes("x", 0, 1234567) {
        Err(Error::Ggml(m)) => assert_eq!(m, "tensor x data has 0 bytes, ggml expects 1234567"),
        other => panic!("unexpected {:?}", other),
    }
}

#[test]
fn byte_count_messages_write_decimal_numbers() {
    match check_tensor_bytes("w", 9, 10) {
        Err(Error::Ggml(m)) => assert_eq!(m, "tensor w data has 9 bytes, ggml expects 10"),
        other => panic!("unexpected {:?}", other),
    }
    match check_tensor_bytes("w", usize::MAX, 100) {
        Err(Error::Ggml(m)) => assert_eq!(m, format!("tensor w data has {} bytes, ggml expects 100", usize::MAX)),
        other => panic!("unexpected {:?}", other),
    }
}
