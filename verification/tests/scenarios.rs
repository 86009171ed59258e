use nnsplit::interpret::Level;
use nnsplit::logic::NNSplitLogic;
use nnsplit::options::NNSplitOptions;
use nnsplit::tiler::{tile, TiledInputs, WindowIndex};
use nnsplit::tree::Split;

const HIGH: i64 = 4_000_000;
const LOW: i64 = -4_000_000;

fn bytes(s: &str) -> Vec<u8> {
    s.as_bytes().to_vec()
}

fn two_level_logic(options: NNSplitOptions) -> NNSplitLogic {
    let levels = vec![
        Level::Predicted { name: "Sentence".to_string(), channel: 0, threshold: 500_000 },
        Level::Predicted { name: "Token".to_string(), channel: 1, threshold: 500_000 },
    ];
    NNSplitLogic::new(options, levels).unwrap()
}

/// Builds a logit tensor for the tiled batch: `f(input, byte, channel)`
/// gives the logit for every real byte; everything else (padding, masked
/// tail, alignment rows) gets a strongly negative logit.
fn logits_from(
    texts: &[Vec<u8>],
    tiled: &TiledInputs,
    length: usize,
    channels: usize,
    f: &dyn Fn(usize, usize, usize) -> i64,
) -> Vec<i64> {
    let rows = tiled.batch.len();
    let padding = 5usize;
    let mut logits = vec![LOW; rows * length * channels];
    for (w, e) in tiled.indices.iter().enumerate() {
        for pos in 0..e.valid_length {
            let p = e.start + pos;
            if p >= padding && p < padding + texts[e.input_id].len() {
                let b = p - padding;
                for c in 0..channels {
                    logits[(w * length + pos) * channels + c] = f(e.input_id, b, c);
                }
            }
        }
    }
    logits
}

fn leaves(t: &Split) -> Vec<Vec<u8>> {
    if t.is_text() {
        vec![t.text().clone()]
    } else {
        let mut out = Vec::new();
        for p in t.parts().iter() {
            out.extend(leaves(p));
        }
        out
    }
}

fn leaf_concat(t: &Split) -> Vec<u8> {
    let mut out = Vec::new();
    for l in leaves(t) {
        out.extend(l);
    }
    out
}

fn run_split(logic: &NNSplitLogic, texts: &Vec<Vec<u8>>, f: &dyn Fn(usize, usize, usize) -> i64) -> Vec<Split> {
    let channels = 2usize;
    let length = logic.options.max_length;
    let tiled = logic.get_inputs_and_indices(texts);
    let logits = logits_from(texts, &tiled, length, channels, f);
    let rows = tiled.batch.len();
    logic
        .split(texts, &logits, rows, length, channels, &tiled.indices)
        .unwrap()
}

#[test]
fn s1_two_sentences() {
    let logic = two_level_logic(NNSplitOptions::default());
    let texts = vec![bytes("Hi. Bye.")];
    // Channel 0 fires only after byte index 2 (the first '.'); channel 1
    // never fires, so each sentence is a single token.
    let trees = run_split(&logic, &texts, &|_, b, c| {
        if c == 0 && b == 2 {
            HIGH
        } else {
            LOW
        }
    });
    assert_eq!(trees.len(), 1);
    let root = &trees[0];
    assert_eq!(root.text(), &bytes("Hi. Bye."));
    let parts = root.parts();
    assert_eq!(parts.len(), 2);
    assert_eq!(parts[0].text(), &bytes("Hi."));
    assert_eq!(parts[1].text(), &bytes(" Bye."));
    assert_eq!(leaf_concat(root), bytes("Hi. Bye."));
}

#[test]
fn s2_empty_input() {
    let logic = two_level_logic(NNSplitOptions::default());
    let texts = vec![bytes("")];
    let trees = run_split(&logic, &texts, &|_, _, _| LOW);
    assert_eq!(trees.len(), 1);
    let root = &trees[0];
    assert_eq!(root.text(), &bytes(""));
    assert!(!root.is_text());
    assert_eq!(root.parts().len(), 0);
}

#[test]
fn s3_single_character_no_cuts() {
    let logic = two_level_logic(NNSplitOptions::default());
    let texts = vec![bytes("A")];
    let trees = run_split(&logic, &texts, &|_, _, _| LOW);
    assert_eq!(trees.len(), 1);
    let root = &trees[0];
    assert_eq!(root.text(), &bytes("A"));
    let parts = root.parts();
    assert_eq!(parts.len(), 1);
    assert_eq!(parts[0].text(), &bytes("A"));
    let tokens = parts[0].parts();
    assert_eq!(tokens.len(), 1);
    assert!(tokens[0].is_text());
    assert_eq!(tokens[0].text(), &bytes("A"));
    assert_eq!(leaf_concat(root), bytes("A"));
}

#[test]
fn s4_short_input_single_window_exact_sigmoid() {
    let options = NNSplitOptions::default();
    let texts = vec![bytes("AAAAA")];
    let tiled = tile(&texts, &options);
    // Shorter than max_length - 2 * padding: exactly one window.
    assert_eq!(tiled.indices.len(), 1);
    assert_eq!(tiled.indices[0], WindowIndex { input_id: 0, start: 0, valid_length: 15 });
    let channels = 2usize;
    let length = options.max_length;
    let logits = logits_from(&texts, &tiled, length, channels, &|_, _, _| 1_000_000);
    let rows = tiled.batch.len();
    let matrices = nnsplit::reduce::reduce(
        &texts,
        &logits,
        rows,
        length,
        channels,
        &tiled.indices,
        options.padding,
    );
    assert_eq!(matrices.len(), 1);
    let expected = nnsplit::sigmoid::sigmoid_q(1_000_000);
    for b in 0..5 {
        for c in 0..channels {
            // One covering window: the average is the sigmoid itself.
            assert_eq!(matrices[0][b * channels + c], expected);
        }
    }
}

#[test]
fn s5_long_input_window_offsets_and_coverage() {
    let options = NNSplitOptions::new(500_000, 250, 500, 5, 256, 1).unwrap();
    let texts = vec![vec![b'A'; 1200]];
    let tiled = tile(&texts, &options);
    let starts: Vec<usize> = tiled.indices.iter().map(|e| e.start).collect();
    // Padded length 1210; the last window is snapped to 1210 - 500 = 710.
    assert_eq!(starts, vec![0, 250, 500, 710]);
    // Every padded byte is covered by one to three windows.
    let padded_len = 1200 + 2 * 5;
    for p in 0..padded_len {
        let mut count = 0;
        for e in tiled.indices.iter() {
            if e.start <= p && p < e.start + e.valid_length {
                count += 1;
            }
        }
        assert!(count >= 1 && count <= 3, "byte {} covered {} times", p, count);
    }
}

#[test]
fn s6_batch_order_preserved() {
    let logic = two_level_logic(NNSplitOptions::default());
    let texts = vec![vec![b'x'; 10], vec![b'y'; 1000]];
    let trees = run_split(&logic, &texts, &|_, _, _| LOW);
    assert_eq!(trees.len(), 2);
    assert_eq!(trees[0].text(), &texts[0]);
    assert_eq!(trees[1].text(), &texts[1]);
    assert_eq!(leaf_concat(&trees[0]), texts[0]);
    assert_eq!(leaf_concat(&trees[1]), texts[1]);
}

#[test]
fn whitespace_level_keeps_whitespace_attached() {
    let levels = vec![Level::Whitespace { name: "Whitespace".to_string() }];
    let logic = NNSplitLogic::new(NNSplitOptions::default(), levels).unwrap();
    let texts = vec![bytes("ab cd  ef ")];
    let channels = 1usize;
    let length = logic.options.max_length;
    let tiled = logic.get_inputs_and_indices(&texts);
    let logits = vec![LOW; tiled.batch.len() * length * channels];
    let trees = logic
        .split(&texts, &logits, tiled.batch.len(), length, channels, &tiled.indices)
        .unwrap();
    let root = &trees[0];
    let parts = root.parts();
    let part_texts: Vec<Vec<u8>> = parts.iter().map(|p| p.text().clone()).collect();
    assert_eq!(part_texts, vec![bytes("ab "), bytes("cd  "), bytes("ef ")]);
    assert_eq!(leaf_concat(root), bytes("ab cd  ef "));
}

fn tree_eq(a: &Split, b: &Split) -> bool {
    if a.is_text() != b.is_text() || a.text() != b.text() {
        return false;
    }
    if a.is_text() {
        return true;
    }
    let (pa, pb) = (a.parts(), b.parts());
    pa.len() == pb.len() && pa.iter().zip(pb.iter()).all(|(x, y)| tree_eq(x, y))
}

#[test]
fn determinism_same_inputs_same_trees() {
    let logic = two_level_logic(NNSplitOptions::default());
    let texts = vec![bytes("Hi. Bye. Ho."), bytes("One two")];
    let f = |_: usize, b: usize, c: usize| {
        if c == 0 && b % 3 == 2 {
            HIGH
        } else {
            LOW
        }
    };
    let first = run_split(&logic, &texts, &f);
    let second = run_split(&logic, &texts, &f);
    assert_eq!(first.len(), second.len());
    for (a, b) in first.iter().zip(second.iter()) {
        assert!(tree_eq(a, b));
    }
}

#[test]
fn probabilities_stay_in_range() {
    let options = NNSplitOptions::default();
    let texts = vec![bytes("some bytes to score")];
    let tiled = tile(&texts, &options);
    let channels = 2usize;
    let length = options.max_length;
    let rows = tiled.batch.len();
    for sample in [i64::MIN, -9_000_000, -1, 0, 1, 777_777, 9_000_000, i64::MAX] {
        let logits = vec![sample; rows * length * channels];
        let matrices = nnsplit::reduce::reduce(
            &texts,
            &logits,
            rows,
            length,
            channels,
            &tiled.indices,
            options.padding,
        );
        for m in matrices.iter() {
            for v in m.iter() {
                assert!(*v <= 1_000_000);
            }
        }
    }
}
