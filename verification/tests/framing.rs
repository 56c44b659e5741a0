use structury_json::{
    adjacent_prefix_len, complete_prefix_len, partition_adjacent, partition_json_seq, partition_ndjson, ByteRange, Dialect, JsonInput,
    MAX_NESTING,
};

fn spans(ranges: &[ByteRange]) -> Vec<(usize, usize)> {
    ranges.iter().map(|range| (range.start(), range.end())).collect()
}

#[test]
fn lines_are_cut_at_newlines() {
    let src = b"{\"a\":1}\n[2]\n3\n";
    assert_eq!(spans(&partition_ndjson(src, 1)), vec![(0, 8), (8, 12), (12, 14)]);
    assert_eq!(spans(&partition_ndjson(src, 1024)), vec![(0, 14)]);
    assert_eq!(spans(&partition_ndjson(b"", 1024)), Vec::new());
}

#[test]
fn parts_stay_ordered_and_inside() {
    for src in [
        &b"{\"a\":1}{\"b\":2} 3 [4]"[..],
        b"\x1e1\n\x1e2\n\x1e[3]\n",
        b"1\n2\n\n3",
        b"{\"a\":",
        b"\xff\xff",
        b"",
        b"\"un",
    ] {
        for target in [0, 1, 4, 1024] {
            for parts in [partition_ndjson(src, target), partition_adjacent(src, target), partition_json_seq(src, target)] {
                let mut last = 0;
                for part in parts {
                    assert!(part.start() <= part.end());
                    assert!(last <= part.start());
                    assert!(part.end() <= src.len());
                    last = part.end();
                }
            }
        }
    }
}

#[test]
fn a_growing_tail_holds_back_what_is_not_complete() {
    assert_eq!(complete_prefix_len(b"1\n2", JsonInput::Ndjson), 2);
    assert_eq!(complete_prefix_len(b"12", JsonInput::Ndjson), 0);
    assert_eq!(complete_prefix_len(b"\x1e1\n\x1e2", JsonInput::JsonSeq), 3);
    assert_eq!(complete_prefix_len(b"[1", JsonInput::Text), 2);
    assert_eq!(adjacent_prefix_len(b"[1] 2", MAX_NESTING, Dialect::Rfc8259), 4);
    assert_eq!(adjacent_prefix_len(b"[1] 2 ", MAX_NESTING, Dialect::Rfc8259), 6);
    assert_eq!(adjacent_prefix_len(b"[1", MAX_NESTING, Dialect::Rfc8259), 0);
}

#[test]
fn a_drained_prefix_is_final() {
    let grown = b"[1] 2 \"x\" true {\"a\":12}";
    for len in 0..=grown.len() {
        let n = adjacent_prefix_len(&grown[..len], MAX_NESTING, Dialect::Rfc8259);
        assert!(n <= len);
        let whole = spans(&partition_adjacent(grown, 1));
        let drained = spans(&partition_adjacent(&grown[..n], 1));
        assert!(drained.len() <= whole.len());
        for (got, full) in drained.iter().zip(&whole) {
            assert_eq!(got.0, full.0);
        }
    }
    let lines = b"1\n2\r\n3";
    let n = complete_prefix_len(lines, JsonInput::Ndjson);
    assert_eq!(n, 5);
    assert_eq!(complete_prefix_len(&lines[..n], JsonInput::Ndjson), n);
}
