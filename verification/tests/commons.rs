use portal::commons::{
    determine_input_shape, determine_onnx_input, determine_onnx_output, determine_provider,
    ModelError, ModelSignature, Provider, TensorInfo,
};

fn tensor(name: &str, dims: Option<Vec<i64>>) -> TensorInfo {
    TensorInfo { name: name.to_string(), dims }
}

fn sig(inputs: Vec<TensorInfo>, outputs: Vec<TensorInfo>) -> ModelSignature {
    ModelSignature { inputs, outputs }
}

fn image(name: &str) -> TensorInfo {
    tensor(name, Some(vec![1, 3, 640, 480]))
}

#[test]
fn provider_dfine() {
    let s = sig(
        vec![image("images"), tensor("orig_target_sizes", Some(vec![1, 2]))],
        vec![tensor("labels", None), tensor("boxes", None), tensor("scores", None)],
    );
    match determine_provider(&s) {
        Ok(Provider::DfineLike(m)) => {
            assert_eq!((m.input_width, m.input_height), (640, 480));
        }
        _ => panic!("expected a D-FINE model"),
    }
}

#[test]
fn provider_yolo() {
    let s = sig(vec![image("images")], vec![tensor("output0", Some(vec![1, 84, 8400]))]);
    match determine_provider(&s) {
        Ok(Provider::YoloLike(m)) => {
            assert_eq!((m.input_width, m.input_height), (640, 480));
        }
        _ => panic!("expected a YOLO model"),
    }
}

#[test]
fn provider_timm() {
    let s = sig(
        vec![tensor("input0", Some(vec![1, 3, 224, 224]))],
        vec![tensor("output0", Some(vec![1, 1000]))],
    );
    match determine_provider(&s) {
        Ok(Provider::TimmLike(m)) => {
            assert_eq!((m.input_width, m.input_height), (224, 224));
        }
        _ => panic!("expected a TIMM model"),
    }
}

#[test]
fn provider_unknown_names() {
    let s = sig(vec![image("images")], vec![tensor("logits", None)]);
    assert!(matches!(determine_provider(&s), Err(ModelError::UnknownProvider)));
    // order matters
    let s = sig(
        vec![tensor("orig_target_sizes", Some(vec![1, 2])), image("images")],
        vec![tensor("labels", None), tensor("boxes", None), tensor("scores", None)],
    );
    assert!(matches!(determine_provider(&s), Err(ModelError::UnknownProvider)));
    // extra output
    let s = sig(vec![image("images")], vec![tensor("output0", None), tensor("extra", None)]);
    assert!(matches!(determine_provider(&s), Err(ModelError::UnknownProvider)));
}

#[test]
fn provider_without_input_shape() {
    let s = sig(vec![tensor("images", Some(vec![3]))], vec![tensor("output0", None)]);
    assert!(matches!(determine_provider(&s), Err(ModelError::InputShapeNotFound)));
    let s = sig(vec![tensor("images", None)], vec![tensor("output0", None)]);
    assert!(matches!(determine_provider(&s), Err(ModelError::InputShapeNotFound)));
}

#[test]
fn input_shape_first_named_match() {
    let s = sig(
        vec![
            tensor("other", Some(vec![1, 3, 10, 20])),
            tensor("images", None),
            tensor("images", Some(vec![5])),
            tensor("images", Some(vec![7, 8])),
            tensor("images", Some(vec![9, 10])),
        ],
        vec![],
    );
    assert_eq!(determine_input_shape(&s, "images"), Ok((7, 8)));
    assert_eq!(determine_input_shape(&s, "other"), Ok((10, 20)));
    assert_eq!(determine_input_shape(&s, "missing"), Err(ModelError::InputShapeNotFound));
}

#[test]
fn input_shape_dynamic_axes_truncate() {
    let s = sig(vec![tensor("images", Some(vec![1, 3, -1, 4294967297]))], vec![]);
    assert_eq!(determine_input_shape(&s, "images"), Ok((u32::MAX, 1)));
}

#[test]
fn onnx_input_first_image_tensor() {
    let s = sig(
        vec![tensor("a", Some(vec![2])), tensor("b", None), tensor("c", Some(vec![1, 3, 32, 64]))],
        vec![],
    );
    let (name, w, h) = determine_onnx_input(&s).unwrap();
    // NCHW: width is the last axis
    assert_eq!((name.as_str(), w, h), ("c", 64, 32));
    let s = sig(vec![tensor("x", Some(vec![1, 3, 2, 4]))], vec![]);
    assert_eq!(determine_onnx_input(&s).unwrap(), ("x".to_string(), 4, 2));
    let s = sig(vec![tensor("a", Some(vec![2]))], vec![]);
    assert_eq!(determine_onnx_input(&s).err(), Some(ModelError::OnnxInputNotFound));
}

#[test]
fn onnx_output_first_image_tensor() {
    let s = sig(
        vec![],
        vec![tensor("scores", Some(vec![7])), tensor("output0", Some(vec![1, 84, 8400]))],
    );
    let (name, w, h) = determine_onnx_output(&s).unwrap();
    assert_eq!((name.as_str(), w, h), ("output0", 84, 8400));
    let s = sig(vec![], vec![]);
    assert_eq!(determine_onnx_output(&s).err(), Some(ModelError::OnnxOutputNotFound));
}
