//! The quantised fastText model loader and the subword row selection,
//! exercised on a small synthesized model whose embedding rows all
//! de-quantise to [1, 1, 1, 1] and whose classifier separates the first
//! label from the second.

use hybrid_search::errors::LidError;
use hybrid_search::langid::{Language, Model};

fn push_u32(b: &mut Vec<u8>, v: u32) {
    b.extend_from_slice(&v.to_le_bytes());
}

fn push_f32(b: &mut Vec<u8>, v: f32) {
    b.extend_from_slice(&v.to_le_bytes());
}

fn push_u64(b: &mut Vec<u8>, v: u64) {
    b.extend_from_slice(&v.to_le_bytes());
}

/// A minimal quantised model: dim 4, two sub-quantisers, bucket 5, no
/// word entries, labels eng_Latn and deu_Latn.  Every input row is
/// [1,1,1,1]; the classifier rows are [1,1,1,1] and [-1,-1,-1,-1].
fn model_bytes(magic: u32, version: u32, word_ngrams: u32, nsub: u32) -> Vec<u8> {
    let mut b = Vec::new();
    push_u32(&mut b, magic);
    push_u32(&mut b, version);
    push_u32(&mut b, 4); // dim
    push_u32(&mut b, 5); // window size
    push_u32(&mut b, 1); // epoch
    push_u32(&mut b, 0); // min_count
    push_u32(&mut b, 5); // neg
    push_u32(&mut b, word_ngrams);
    push_u32(&mut b, 2); // loss
    push_u32(&mut b, 1); // model
    push_u32(&mut b, 5); // bucket
    push_u32(&mut b, 2); // minn
    push_u32(&mut b, 3); // maxn
    push_u32(&mut b, 100); // lr update rate
    b.extend_from_slice(&0.0001f64.to_le_bytes()); // sampling threshold
    push_u32(&mut b, 0); // nwords
    push_u32(&mut b, 2); // nlabels
    push_u64(&mut b, 1000); // ntokens
    for label in ["eng_Latn", "deu_Latn"] {
        push_u32(&mut b, label.len() as u32);
        b.extend_from_slice(label.as_bytes());
        push_u64(&mut b, 500);
    }
    // input matrix: 6 rows (nwords + bucket + 1), dim 4
    b.push(0); // qnorm
    push_u32(&mut b, 6); // rows
    push_u32(&mut b, 4); // dim
    push_u32(&mut b, nsub);
    if nsub == 2 {
        for _ in 0..12 {
            b.push(0); // codes: every sub-block picks centroid 0
        }
        for s in 0..2u32 {
            for c in 0..256u32 {
                for _ in 0..2 {
                    push_f32(&mut b, if c == 0 { 1.0 } else { 0.0 });
                }
                let _ = s;
            }
        }
    }
    // output matrix: 2 rows, dim 4
    b.push(0); // qnorm
    push_u32(&mut b, 2); // rows
    push_u32(&mut b, 4); // dim
    push_u32(&mut b, 2); // nsub
    b.push(0);
    b.push(0); // row 0 picks centroid 0 in both sub-blocks
    b.push(1);
    b.push(1); // row 1 picks centroid 1 in both sub-blocks
    for _s in 0..2u32 {
        for c in 0..256u32 {
            for _ in 0..2 {
                push_f32(
                    &mut b,
                    if c == 0 {
                        1.0
                    } else if c == 1 {
                        -1.0
                    } else {
                        0.0
                    },
                );
            }
        }
    }
    b
}

#[test]
fn parse_accepts_the_synthesized_model() {
    let bytes = model_bytes(0x12FD21E5, 12, 1, 2);
    let model = Model::parse(&bytes).unwrap();
    assert_eq!(model.args.dim, 4);
    assert_eq!(model.args.bucket, 5);
    assert_eq!(model.args.minn, 2);
    assert_eq!(model.args.maxn, 3);
    assert_eq!(model.args.nwords, 0);
    assert_eq!(model.labels.len(), 2);
    assert_eq!(model.labels[0], "eng_Latn");
    assert_eq!(model.labels[1], "deu_Latn");
    assert_eq!(model.qinput.rows, 6);
    assert_eq!(model.qoutput.rows, 2);
}

#[test]
fn parse_rejects_bad_headers_and_layouts() {
    assert!(matches!(
        Model::parse(&model_bytes(0xDEADBEEF, 12, 1, 2)),
        Err(LidError::BadHeader)
    ));
    assert!(matches!(
        Model::parse(&model_bytes(0x12FD21E5, 11, 1, 2)),
        Err(LidError::BadHeader)
    ));
    assert!(matches!(
        Model::parse(&model_bytes(0x12FD21E5, 12, 2, 2)),
        Err(LidError::Unsupported)
    ));
    // dim 4 is not divisible by 3 sub-quantisers
    assert!(matches!(
        Model::parse(&model_bytes(0x12FD21E5, 12, 1, 3)),
        Err(LidError::BadDims)
    ));
    // truncation fails with an i/o error
    let whole = model_bytes(0x12FD21E5, 12, 1, 2);
    assert!(matches!(
        Model::parse(&whole[..whole.len() - 10]),
        Err(LidError::Io(_))
    ));
    assert!(matches!(Model::parse(&whole[..3]), Err(LidError::Io(_))));
}

/// Run the floating-point part of prediction the way the application
/// does: average the de-quantised rows of every subword n-gram, multiply
/// by the classifier, and take the softmax of the winner.
fn predict(model: &Model, sentence: &str) -> Option<(String, f32)> {
    let dim = model.args.dim as usize;
    let mut v = vec![0.0f32; dim];
    let mut count = 0usize;
    for tok in sentence.split_whitespace() {
        let wrapped = format!("<{}>", tok);
        for row in model.token_rows(wrapped.as_bytes()) {
            let bits = model.qinput.row_bits(row);
            for (j, b) in bits.iter().enumerate() {
                v[j] += f32::from_bits(*b);
            }
            count += 1;
        }
    }
    if count == 0 {
        return None;
    }
    for x in v.iter_mut() {
        *x /= count as f32;
    }
    let mut scores = Vec::new();
    for row in 0..model.qoutput.rows {
        let bits = model.qoutput.row_bits(row);
        let mut dot = 0.0f32;
        for (j, b) in bits.iter().enumerate() {
            dot += f32::from_bits(*b) * v[j];
        }
        scores.push(dot);
    }
    let (best, best_score) = scores
        .iter()
        .enumerate()
        .fold((0usize, f32::NEG_INFINITY), |acc, (i, s)| {
            if *s > acc.1 {
                (i, *s)
            } else {
                acc
            }
        });
    let denom: f32 = scores.iter().map(|s| (s - best_score).exp()).sum();
    Some((model.labels[best].clone(), 1.0 / denom))
}

#[test]
fn predicts_the_english_label_with_confidence() {
    let bytes = model_bytes(0x12FD21E5, 12, 1, 2);
    let model = Model::parse(&bytes).unwrap();
    let (label, p) = predict(&model, "the quick brown fox jumps over the lazy dog").unwrap();
    assert_eq!(label, "eng_Latn");
    assert!(p > 0.5, "probability was {}", p);
    assert_eq!(label, Language::English.label());
}

#[test]
fn subword_rows_stay_inside_the_bucket_range() {
    let bytes = model_bytes(0x12FD21E5, 12, 1, 2);
    let model = Model::parse(&bytes).unwrap();
    let rows = model.token_rows(b"<fox>");
    // n-gram lengths 2 and 3 over 5 bytes: 4 + 3 of them
    assert_eq!(rows.len(), 7);
    for r in rows {
        assert!(r >= 1 && r <= 5, "row {} out of bucket range", r);
        assert!(r < model.qinput.rows);
    }
}

#[test]
fn labels_round_trip_through_language() {
    assert!(matches!(Language::from_label("eng_Latn"), Some(Language::English)));
    assert!(matches!(Language::from_label("rus_Cyrl"), Some(Language::Russian)));
    assert!(matches!(Language::from_label("xx"), None));
    assert!(matches!(Language::from_label(""), None));
    assert!(matches!(
        Language::from_label(Language::Turkish.label()),
        Some(Language::Turkish)
    ));
}
