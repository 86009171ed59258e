use nnsplit::encode::{encode, decode};
use nnsplit::metadata::{levels_from_plain, parse_threshold, PlainJson};
use nnsplit::logic::chunk_ranges;
use nnsplit::errors::NNSplitError;
use nnsplit::interpret::Level;
use nnsplit::logic::NNSplitLogic;
use nnsplit::options::NNSplitOptions;
use nnsplit::sigmoid::sigmoid_q;
use nnsplit::tiler::{tile, window_offsets};
use nnsplit::tree::Split;
use nnsplit::prob_scale;

fn bytes(s: &str) -> Vec<u8> {
    s.as_bytes().to_vec()
}

#[test]
fn options_defaults() {
    let o = NNSplitOptions::default();
    assert_eq!(o.threshold, 500_000);
    assert_eq!(o.stride, 50);
    assert_eq!(o.max_length, 500);
    assert_eq!(o.padding, 5);
    assert_eq!(o.batch_size, 256);
    assert_eq!(o.length_divisor, 1);
}

#[test]
fn options_validation() {
    assert!(NNSplitOptions::new(500_000, 50, 500, 5, 256, 1).is_ok());
    // stride must not exceed the window length
    assert_eq!(NNSplitOptions::new(500_000, 501, 500, 5, 256, 1), Err(NNSplitError::Config));
    // stride of zero never advances
    assert_eq!(NNSplitOptions::new(500_000, 0, 500, 5, 256, 1), Err(NNSplitError::Config));
    // batch size of zero
    assert_eq!(NNSplitOptions::new(500_000, 50, 500, 5, 0, 1), Err(NNSplitError::Config));
    // divisor of zero
    assert_eq!(NNSplitOptions::new(500_000, 50, 500, 5, 256, 0), Err(NNSplitError::Config));
    // divisor must divide the window length
    assert_eq!(NNSplitOptions::new(500_000, 50, 500, 5, 256, 3), Err(NNSplitError::Config));
    // threshold above one
    assert_eq!(NNSplitOptions::new(1_000_001, 50, 500, 5, 256, 1), Err(NNSplitError::Config));
}

#[test]
fn sigmoid_fixed_points() {
    let scale = prob_scale();
    assert_eq!(sigmoid_q(0), scale / 2);
    assert!(sigmoid_q(4_000_000) > scale / 2);
    assert!(sigmoid_q(-4_000_000) < scale / 2);
    // sigma(x) + sigma(-x) = 1 exactly in this fixed-point form
    for x in [1i64, 37, 500_000, 1_000_000, 3_000_000, 19_999_999, 25_000_000] {
        assert_eq!(sigmoid_q(x) + sigmoid_q(-x), scale);
        assert!(sigmoid_q(x) <= scale);
    }
    // saturation far from zero
    assert_eq!(sigmoid_q(30_000_000), scale);
    assert_eq!(sigmoid_q(-30_000_000), 0);
    assert_eq!(sigmoid_q(i64::MAX), scale);
    assert_eq!(sigmoid_q(i64::MIN), 0);
}

#[test]
fn window_offsets_shapes() {
    assert_eq!(window_offsets(500, 500, 50), vec![0]);
    assert_eq!(window_offsets(1210, 500, 250), vec![0, 250, 500, 710]);
    // a final stride step that lands exactly is not duplicated
    assert_eq!(window_offsets(1000, 500, 250), vec![0, 250, 500]);
    assert_eq!(window_offsets(510, 500, 50), vec![0, 10]);
}

#[test]
fn tile_alignment_rows() {
    let options = NNSplitOptions::new(500_000, 50, 500, 5, 256, 4).unwrap();
    let texts = vec![bytes("hello")];
    let tiled = tile(&texts, &options);
    assert_eq!(tiled.indices.len(), 1);
    // padded to a multiple of the length divisor with all-zero rows
    assert_eq!(tiled.batch.len(), 4);
    for row in tiled.batch.iter() {
        assert_eq!(row.len(), 500);
    }
    for w in 1..4 {
        assert!(tiled.batch[w].iter().all(|b| *b == 0));
    }
}

#[test]
fn tile_window_content() {
    let options = NNSplitOptions::default();
    let texts = vec![bytes("abc")];
    let tiled = tile(&texts, &options);
    let row = &tiled.batch[0];
    // five zero bytes of padding, the text, zeros to the end
    assert_eq!(&row[0..5], &[0, 0, 0, 0, 0]);
    assert_eq!(&row[5..8], b"abc");
    assert!(row[8..].iter().all(|b| *b == 0));
}

#[test]
fn schema_from_metadata_json() {
    let json = r#"[
        {"name": "Sentence", "kind": "predicted", "channel": 0, "threshold": 0.8},
        {"name": "Token", "kind": "predicted", "channel": 1},
        {"name": "Whitespace", "kind": "whitespace"}
    ]"#;
    let logic = NNSplitLogic::from_metadata(NNSplitOptions::default(), Some(json)).unwrap();
    let names = logic.split_sequence.get_levels();
    assert_eq!(names, vec!["Sentence", "Token", "Whitespace"]);
    match &logic.split_sequence.levels[0] {
        Level::Predicted { channel, threshold, .. } => {
            assert_eq!(*channel, 0);
            assert_eq!(*threshold, 800_000);
        },
        _ => panic!("expected a predicted level"),
    }
    match &logic.split_sequence.levels[1] {
        Level::Predicted { channel, threshold, .. } => {
            assert_eq!(*channel, 1);
            // absent threshold falls back to the configured default
            assert_eq!(*threshold, 500_000);
        },
        _ => panic!("expected a predicted level"),
    }
    match &logic.split_sequence.levels[2] {
        Level::Whitespace { .. } => {},
        _ => panic!("expected a whitespace level"),
    }
}

#[test]
fn threshold_decimal_parsing() {
    let json = r#"[{"name": "S", "kind": "predicted", "channel": 0, "threshold": 0.123456}]"#;
    let logic = NNSplitLogic::from_metadata(NNSplitOptions::default(), Some(json)).unwrap();
    match &logic.split_sequence.levels[0] {
        Level::Predicted { threshold, .. } => assert_eq!(*threshold, 123_456),
        _ => panic!("expected a predicted level"),
    }
    let json_one = r#"[{"name": "S", "kind": "predicted", "channel": 0, "threshold": 1}]"#;
    let logic = NNSplitLogic::from_metadata(NNSplitOptions::default(), Some(json_one)).unwrap();
    match &logic.split_sequence.levels[0] {
        Level::Predicted { threshold, .. } => assert_eq!(*threshold, 1_000_000),
        _ => panic!("expected a predicted level"),
    }
}

#[test]
fn metadata_errors() {
    let o = NNSplitOptions::default();
    // absent metadata key
    assert!(matches!(NNSplitLogic::from_metadata(o, None), Err(NNSplitError::Metadata)));
    // malformed JSON
    assert!(matches!(
        NNSplitLogic::from_metadata(o, Some("not json")),
        Err(NNSplitError::Metadata)
    ));
    // not an array
    assert!(matches!(
        NNSplitLogic::from_metadata(o, Some(r#"{"name": "S"}"#)),
        Err(NNSplitError::Metadata)
    ));
    // missing name
    assert!(matches!(
        NNSplitLogic::from_metadata(o, Some(r#"[{"kind": "whitespace"}]"#)),
        Err(NNSplitError::Metadata)
    ));
    // unknown kind
    assert!(matches!(
        NNSplitLogic::from_metadata(o, Some(r#"[{"name": "S", "kind": "mystery"}]"#)),
        Err(NNSplitError::Metadata)
    ));
    // predicted level without a channel
    assert!(matches!(
        NNSplitLogic::from_metadata(o, Some(r#"[{"name": "S", "kind": "predicted"}]"#)),
        Err(NNSplitError::Metadata)
    ));
    // threshold above one
    assert!(matches!(
        NNSplitLogic::from_metadata(
            o,
            Some(r#"[{"name": "S", "kind": "predicted", "channel": 0, "threshold": 1.5}]"#)
        ),
        Err(NNSplitError::Metadata)
    ));
}

#[test]
fn config_error_from_metadata() {
    let bad = NNSplitOptions {
        threshold: 500_000,
        stride: 600,
        max_length: 500,
        padding: 5,
        batch_size: 256,
        length_divisor: 1,
    };
    assert!(matches!(
        NNSplitLogic::from_metadata(bad, Some("[]")),
        Err(NNSplitError::Config)
    ));
}

#[test]
fn shape_errors() {
    let levels = vec![Level::Predicted { name: "S".to_string(), channel: 0, threshold: 500_000 }];
    let logic = NNSplitLogic::new(NNSplitOptions::default(), levels).unwrap();
    let texts = vec![bytes("hello")];
    let tiled = logic.get_inputs_and_indices(&texts);
    let rows = tiled.batch.len();
    let channels = 1usize;
    let good = vec![0i64; rows * 500 * channels];
    assert!(logic.split(&texts, &good, rows, 500, channels, &tiled.indices).is_ok());
    // zero channels
    assert!(matches!(
        logic.split(&texts, &good, rows, 500, 0, &tiled.indices),
        Err(NNSplitError::Shape)
    ));
    // row length differs from the configured window length
    assert!(matches!(
        logic.split(&texts, &good, rows, 499, channels, &tiled.indices),
        Err(NNSplitError::Shape)
    ));
    // flat size does not match the dimensions
    let short = vec![0i64; rows * 500 * channels - 1];
    assert!(matches!(
        logic.split(&texts, &short, rows, 500, channels, &tiled.indices),
        Err(NNSplitError::Shape)
    ));
    // fewer rows than index entries
    let empty: Vec<i64> = Vec::new();
    assert!(matches!(
        logic.split(&texts, &empty, 0, 500, channels, &tiled.indices),
        Err(NNSplitError::Shape)
    ));
    // a schema channel the tensor does not have
    let levels = vec![Level::Predicted { name: "S".to_string(), channel: 7, threshold: 500_000 }];
    let logic7 = NNSplitLogic::new(NNSplitOptions::default(), levels).unwrap();
    assert!(matches!(
        logic7.split(&texts, &good, rows, 500, channels, &tiled.indices),
        Err(NNSplitError::Shape)
    ));
}

#[test]
fn construction_validation() {
    let levels = vec![Level::Predicted { name: "S".to_string(), channel: 0, threshold: 1_000_001 }];
    assert!(matches!(
        NNSplitLogic::new(NNSplitOptions::default(), levels),
        Err(NNSplitError::Config)
    ));
}

#[test]
fn encode_decode_round_trip() {
    let s = "héllo wörld";
    let b = encode(s);
    assert_eq!(b, s.as_bytes().to_vec());
    let back = decode(&b).unwrap();
    assert_eq!(back, s);
    // invalid UTF-8 is rejected
    assert!(decode(&vec![0xff, 0xfe]).is_none());
}

#[test]
fn tree_accessors() {
    let leaf = Split::Text { text: bytes("ab") };
    assert!(leaf.is_text());
    assert_eq!(leaf.text(), &bytes("ab"));
    let node = Split::Split { text: bytes("ab"), parts: vec![Split::Text { text: bytes("ab") }] };
    assert!(!node.is_text());
    assert_eq!(node.text(), &bytes("ab"));
    assert_eq!(node.parts().len(), 1);
    assert_eq!(node.parts()[0].text(), &bytes("ab"));
}

#[test]
fn error_descriptions() {
    assert!(!NNSplitError::Config.describe().is_empty());
    assert!(!NNSplitError::Metadata.describe().is_empty());
    assert!(!NNSplitError::Shape.describe().is_empty());
}

#[test]
fn chunk_ranges_shapes() {
    assert_eq!(chunk_ranges(0, 256), Vec::<(usize, usize)>::new());
    assert_eq!(chunk_ranges(10, 256), vec![(0, 10)]);
    assert_eq!(chunk_ranges(512, 256), vec![(0, 256), (256, 512)]);
    assert_eq!(chunk_ranges(600, 256), vec![(0, 256), (256, 512), (512, 600)]);
}

#[test]
fn threshold_exponent_forms() {
    // forms as serde_json prints small floats
    assert_eq!(parse_threshold(&b"5e-1".to_vec()), Some(500_000));
    assert_eq!(parse_threshold(&b"5E-1".to_vec()), Some(500_000));
    assert_eq!(parse_threshold(&b"1.5e-6".to_vec()), Some(1));
    assert_eq!(parse_threshold(&b"1e-6".to_vec()), Some(1));
    assert_eq!(parse_threshold(&b"1e-7".to_vec()), Some(0));
    assert_eq!(parse_threshold(&b"2.5e-2".to_vec()), Some(25_000));
    assert_eq!(parse_threshold(&b"1e0".to_vec()), Some(1_000_000));
    assert_eq!(parse_threshold(&b"0e99".to_vec()), Some(0));
    assert_eq!(parse_threshold(&b"1e+1".to_vec()), None);
    assert_eq!(parse_threshold(&b"2e3".to_vec()), None);
    assert_eq!(parse_threshold(&b"1e".to_vec()), None);
    assert_eq!(parse_threshold(&b"e-1".to_vec()), None);
    // plain decimals still parse as before
    assert_eq!(parse_threshold(&b"0.8".to_vec()), Some(800_000));
    assert_eq!(parse_threshold(&b"1".to_vec()), Some(1_000_000));
    assert_eq!(parse_threshold(&b"1.1".to_vec()), None);
}

#[test]
fn threshold_exponent_through_metadata() {
    let json = r#"[{"name": "S", "kind": "predicted", "channel": 0, "threshold": 1e-6}]"#;
    let logic = NNSplitLogic::from_metadata(NNSplitOptions::default(), Some(json)).unwrap();
    match &logic.split_sequence.levels[0] {
        Level::Predicted { threshold, .. } => assert_eq!(*threshold, 1),
        _ => panic!("expected a predicted level"),
    }
}

#[test]
fn levels_from_plain_values() {
    // a schema built directly from plain values, bypassing the JSON text
    let item = PlainJson::Object(vec![
        ("name".to_string(), PlainJson::Text("Sentence".to_string())),
        ("kind".to_string(), PlainJson::Text("predicted".to_string())),
        ("channel".to_string(), PlainJson::Number(b"3".to_vec())),
        ("threshold".to_string(), PlainJson::Number(b"0.25".to_vec())),
    ]);
    let plain = PlainJson::Array(vec![item]);
    let levels = levels_from_plain(&plain, 500_000).unwrap();
    assert_eq!(levels.len(), 1);
    match &levels[0] {
        Level::Predicted { channel, threshold, .. } => {
            assert_eq!(*channel, 3);
            assert_eq!(*threshold, 250_000);
        },
        _ => panic!("expected a predicted level"),
    }
    // a malformed entry is the metadata error
    let bad = PlainJson::Array(vec![PlainJson::Bool(true)]);
    assert!(matches!(levels_from_plain(&bad, 500_000), Err(NNSplitError::Metadata)));
}
