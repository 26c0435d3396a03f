//! Alignment of words and transfer of formatting.

use crisp_docx::align::algorithm::{
    argmax_src_to_tgt, argmax_tgt_to_src, check_shape, intersection, itermax, AlignmentEdge,
    Strategy, NO_SIM,
};
use crisp_docx::align::errors::Error;
use crisp_docx::align::format_transfer::{transfer_format_via_words, translate_runs, SourceRun};
use crisp_docx::align::subword::{group_subwords_to_words, TokenizerKind};
use crisp_docx::align::text_alignment::align_tokens;

#[test]
fn single_run_passes_through_unchanged() {
    let src = vec![SourceRun {
        text: "Hello world.".to_string(),
        format_id: "plain",
    }];
    let edges = vec![(0, 0), (1, 1)];
    let out = transfer_format_via_words(&src, "Hallo Welt.", &edges, Some("plain"));
    // All target runs should be "plain" — concat == "Hallo Welt."
    assert_eq!(out.len(), 1);
    assert_eq!(out[0].text, "Hallo Welt.");
    assert_eq!(out[0].format_id, "plain");
}

#[test]
fn bold_word_in_middle_carries_through() {
    let src = vec![
        SourceRun {
            text: "I love ".into(),
            format_id: "plain",
        },
        SourceRun {
            text: "dogs".into(),
            format_id: "bold",
        },
        SourceRun {
            text: " a lot.".into(),
            format_id: "plain",
        },
    ];
    // English source words: I, love, dogs, a, lot.
    // German translation:    Ich, liebe, Hunde, sehr.
    // Alignment:             I↔Ich, love↔liebe, dogs↔Hunde, lot↔sehr
    let edges = vec![(0, 0), (1, 1), (2, 2), (4, 3)];
    let out = transfer_format_via_words(&src, "Ich liebe Hunde sehr.", &edges, Some("plain"));
    // We expect: "Ich liebe " plain, "Hunde" bold, " sehr." plain
    let concat: String = out.iter().map(|r| r.text.as_str()).collect();
    assert_eq!(concat, "Ich liebe Hunde sehr.");
    // The "Hunde" word should be in a bold run.
    let bold_runs: Vec<&str> = out
        .iter()
        .filter(|r| r.format_id == "bold")
        .map(|r| r.text.as_str())
        .collect();
    assert!(
        bold_runs.iter().any(|s| s.contains("Hunde")),
        "no bold run contains Hunde: runs={:?}",
        out.iter()
            .map(|r| (&r.text, r.format_id))
            .collect::<Vec<_>>()
    );
}

#[test]
fn unaligned_words_inherit_from_neighbour() {
    let src = vec![
        SourceRun {
            text: "bold".into(),
            format_id: "bold",
        },
        SourceRun {
            text: " plain".into(),
            format_id: "plain",
        },
    ];
    // src words: bold(0), plain(1)
    // tgt words: foo(0), bar(1), baz(2)  — only middle aligned to plain
    let edges = vec![(1, 1)];
    let out = transfer_format_via_words(&src, "foo bar baz", &edges, None);
    // foo: no edge → scan finds bar→plain → foo gets plain.
    // bar: edge → plain.
    // baz: no edge → scan left finds bar→plain → baz gets plain.
    let concat: String = out.iter().map(|r| r.text.as_str()).collect();
    assert_eq!(concat, "foo bar baz");
    for r in &out {
        assert_eq!(r.format_id, "plain");
    }
}

#[test]
fn default_format_used_when_no_alignment_at_all() {
    let src = vec![SourceRun {
        text: "bold".into(),
        format_id: "bold",
    }];
    let edges: Vec<(usize, usize)> = vec![];
    let out = transfer_format_via_words(&src, "Worte hier", &edges, Some("default"));
    for r in &out {
        assert_eq!(r.format_id, "default");
    }
}

#[test]
fn adjacent_same_format_runs_merge() {
    let src = vec![
        SourceRun {
            text: "a ".into(),
            format_id: 0u8,
        },
        SourceRun {
            text: "b ".into(),
            format_id: 0u8,
        },
        SourceRun {
            text: "c".into(),
            format_id: 0u8,
        },
    ];
    let edges = vec![(0, 0), (1, 1), (2, 2)];
    let out = transfer_format_via_words(&src, "x y z", &edges, Some(0u8));
    // All same format → one merged run.
    assert_eq!(out.len(), 1);
    assert_eq!(out[0].text, "x y z");
    assert_eq!(out[0].format_id, 0);
}

#[test]
fn whitespace_keeps_format_of_preceding_word() {
    let src = vec![
        SourceRun {
            text: "Hi ".into(),
            format_id: "plain",
        },
        SourceRun {
            text: "BOLD".into(),
            format_id: "bold",
        },
    ];
    // src: Hi(0), BOLD(1)
    // tgt: Hallo(0), FETT(1)
    // edges: (0,0),(1,1)
    let out = transfer_format_via_words(&src, "Hallo FETT", &[(0, 0), (1, 1)], Some("plain"));
    let concat: String = out.iter().map(|r| r.text.as_str()).collect();
    assert_eq!(concat, "Hallo FETT");
    // The space between Hallo and FETT should attach to "Hallo" (the
    // preceding run, which is "plain") — keeping "FETT" as its own
    // bold run.
    // So expected: ["Hallo ", "FETT"] with formats [plain, bold].
    assert_eq!(out.len(), 2);
    assert_eq!(out[0].text, "Hallo ");
    assert_eq!(out[0].format_id, "plain");
    assert_eq!(out[1].text, "FETT");
    assert_eq!(out[1].format_id, "bold");
}

fn s(v: &[&str]) -> Vec<String> {
    v.iter().map(|s| s.to_string()).collect()
}

#[test]
fn wordpiece_groups_continuations() {
    // BERT tokenization: "embeddings" → "em" "##bed" "##ding" "##s"
    let toks = s(&["[CLS]", "em", "##bed", "##ding", "##s", "[SEP]"]);
    let groups = group_subwords_to_words(&toks, TokenizerKind::WordPiece);
    assert_eq!(groups.len(), 1);
    assert_eq!(groups[0].text, "embeddings");
    assert_eq!(groups[0].token_indices, vec![1, 2, 3, 4]);
}

#[test]
fn sentencepiece_groups_via_word_start_marker() {
    // XLM-R tokenization: "schläft" → "▁sch" "lä" "ft"
    let toks = s(&[
        "<s>",
        "\u{2581}Der",
        "\u{2581}Hund",
        "\u{2581}sch",
        "lä",
        "ft",
        "</s>",
    ]);
    let groups = group_subwords_to_words(&toks, TokenizerKind::SentencePiece);
    assert_eq!(groups.len(), 3);
    assert_eq!(groups[0].text, "Der");
    assert_eq!(groups[1].text, "Hund");
    assert_eq!(groups[2].text, "schläft");
    assert_eq!(groups[2].token_indices, vec![3, 4, 5]);
}

#[test]
fn special_tokens_are_dropped() {
    let toks = s(&["[CLS]", "hi", "[SEP]"]);
    let groups = group_subwords_to_words(&toks, TokenizerKind::WordPiece);
    assert_eq!(groups.len(), 1);
    assert_eq!(groups[0].text, "hi");
    assert_eq!(groups[0].token_indices, vec![1]);
}

#[test]
fn bpe_groups_one_per_token() {
    let toks = s(&["Ġhello", "Ġworld"]);
    let groups = group_subwords_to_words(&toks, TokenizerKind::Bpe);
    assert_eq!(groups.len(), 2);
    assert_eq!(groups[0].text, "Ġhello");
    assert_eq!(groups[1].text, "Ġworld");
}

#[test]
fn unknown_kind_defaults_to_wordpiece_rules() {
    assert_eq!(TokenizerKind::from_kind(0), TokenizerKind::WordPiece);
    assert_eq!(TokenizerKind::from_kind(7), TokenizerKind::WordPiece);
}

/// Similarities in thousandths.
fn identity() -> Vec<i64> {
    vec![1000, 0, 0, 0, 1000, 0, 0, 0, 1000]
}

#[test]
fn argmax_picks_diagonal_for_identity() {
    let edges = argmax_src_to_tgt(&identity(), 3, 3);
    assert_eq!(edges.len(), 3);
    for (i, e) in edges.iter().enumerate() {
        assert_eq!(e.src, i);
        assert_eq!(e.tgt, i);
        assert_eq!(e.sim, 1000);
    }
}

#[test]
fn intersection_drops_one_directional_matches() {
    let mat = vec![900, 100, 700, 600];
    let edges = intersection(&mat, 2, 2);
    assert_eq!(edges.len(), 1);
    assert_eq!(edges[0].src, 0);
    assert_eq!(edges[0].tgt, 0);
}

#[test]
fn itermax_yields_one_to_one_above_threshold() {
    let mat = vec![900, 200, 100, 300, 800, 200, 100, 200, 700];
    let edges = itermax(&mat, 3, 3, 400);
    assert_eq!(edges.len(), 3);
    for (i, expected) in [(0, 0, 900), (1, 1, 800), (2, 2, 700)].iter().enumerate() {
        assert_eq!(edges[i].src, expected.0);
        assert_eq!(edges[i].tgt, expected.1);
        assert_eq!(edges[i].sim, expected.2);
    }
}

#[test]
fn itermax_stops_at_threshold() {
    let mat = vec![900, 200, 100, 300];
    let edges = itermax(&mat, 2, 2, 500);
    assert_eq!(edges.len(), 1);
    assert_eq!(edges[0].src, 0);
    assert_eq!(edges[0].tgt, 0);
}

#[test]
fn itermax_is_sorted_by_source() {
    let edges = itermax(&[1, 5, 9, 2], 2, 2, NO_SIM + 1);
    assert_eq!(
        edges,
        vec![
            AlignmentEdge { src: 0, tgt: 1, sim: 5 },
            AlignmentEdge { src: 1, tgt: 0, sim: 9 },
        ]
    );
}

#[test]
fn ties_go_to_the_last_target_and_the_first_source() {
    assert_eq!(argmax_src_to_tgt(&[3, 3], 1, 2)[0].tgt, 1);
    assert_eq!(argmax_tgt_to_src(&[3, 3], 2, 1)[0].src, 0);
    assert_eq!(
        argmax_tgt_to_src(&[], 0, 1),
        vec![AlignmentEdge { src: 0, tgt: 0, sim: NO_SIM }]
    );
    assert!(argmax_src_to_tgt(&[], 2, 0).is_empty());
}

#[test]
fn ragged_input_is_rejected() {
    let e = check_shape(&[3], &[2]).unwrap_err();
    match e {
        Error::DimMismatch { src_dim, tgt_dim } => {
            assert_eq!(src_dim, 3);
            assert_eq!(tgt_dim, 2);
        }
        _ => panic!("expected DimMismatch, got {e:?}"),
    }
    let e = check_shape(&[3, 4], &[3]).unwrap_err();
    assert_eq!(e.message(), "ragged matrix: row 1 has 4 entries, expected 3");
    let e = check_shape(&[3], &[3, 2]).unwrap_err();
    assert!(matches!(e, Error::Ragged { row: 1, got: 2, expected: 3 }));
    assert_eq!(check_shape(&[3, 3], &[3]).unwrap(), 3);
}

#[test]
fn empty_input_is_rejected() {
    let e = check_shape(&[], &[1]).unwrap_err();
    assert!(matches!(e, Error::Empty { .. }));
    assert_eq!(e.message(), "empty input: source has 0 tokens, target has 1");
}

#[test]
fn token_edges_collapse_to_word_edges() {
    let src = s(&["[CLS]", "em", "##bed", "dog"]);
    let tgt = s(&["[CLS]", "hund", "ein", "##bett"]);
    let mut matrix = vec![0; 16];
    for (i, j) in [(0, 0), (1, 2), (2, 3), (3, 1)] {
        matrix[i * 4 + j] = 10;
    }
    let a = align_tokens(src, tgt, TokenizerKind::WordPiece, &matrix, Strategy::Itermax { min_sim: 5 })
        .unwrap();
    assert_eq!(a.edges.len(), 4);
    assert_eq!(a.word_edges, vec![(0, 1), (1, 0)]);
    assert_eq!(a.src_words[0].text, "embed");
}

#[test]
fn texts_without_tokens_cannot_be_aligned() {
    let e = align_tokens(vec![], s(&["a"]), TokenizerKind::Bpe, &[], Strategy::Intersection);
    assert_eq!(e.unwrap_err().message(), "encoder produced no tokens for source text");
    let e = align_tokens(s(&["a"]), vec![], TokenizerKind::Bpe, &[], Strategy::Intersection);
    assert!(matches!(e, Err(Error::Untokenizable("target text"))));
}

#[test]
fn edges_from_nowhere_do_not_count() {
    let src = vec![SourceRun { text: "x".to_string(), format_id: 7u8 }];
    let out = transfer_format_via_words(&src, " a b ", &[(9, 0), (0, 1)], None);
    assert_eq!(out.len(), 1);
    assert_eq!(out[0].text, " a b ");
    assert_eq!(out[0].format_id, 7);
}

#[test]
fn without_any_format_there_are_no_runs() {
    let src: Vec<SourceRun<u8>> = vec![];
    assert!(transfer_format_via_words(&src, "a b", &[], None).is_empty());
}

#[test]
fn a_word_has_the_format_of_most_of_it() {
    let src = vec![
        SourceRun { text: "aaa".to_string(), format_id: 1u8 },
        SourceRun { text: "b".to_string(), format_id: 2u8 },
        SourceRun { text: " cc".to_string(), format_id: 3u8 },
        SourceRun { text: "dd".to_string(), format_id: 4u8 },
    ];
    let out = transfer_format_via_words(&src, "x y", &[(0, 0), (1, 1)], None);
    assert_eq!(out.len(), 2);
    assert_eq!((out[0].text.as_str(), out[0].format_id), ("x ", 1));
    assert_eq!((out[1].text.as_str(), out[1].format_id), ("y", 4));
}

#[test]
fn translated_runs_carry_their_alignment() {
    let src = vec![SourceRun { text: "dog".to_string(), format_id: 1u8 }];
    let a = align_tokens(s(&["dog"]), s(&["Hund"]), TokenizerKind::Bpe, &[1], Strategy::Intersection)
        .unwrap();
    let t = translate_runs(&src, "Hund", a, None);
    assert_eq!(t.word_edges, vec![(0, 0)]);
    assert_eq!(t.src_words, vec!["dog"]);
    assert_eq!(t.tgt_words, vec!["Hund"]);
    assert_eq!(t.runs[0].text, "Hund");
}
