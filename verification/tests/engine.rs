use simdpath::classify::classify_structural_characters;
use simdpath::classify::StructuralEvent;
use simdpath::quotes::QuoteClassifier;
use simdpath::stackless::descendant_only_automaton;
use simdpath::stackless::JsonPathQuery;
use simdpath::stackless::JsonPathQueryNode;
use simdpath::stackless::Label;
use simdpath::stackless::StacklessRunner;

/// Direct-scan reference for the within-quotes mask: byte `i` is strictly
/// inside a string literal when an odd number of unescaped quotes stands
/// before it and it is not itself an unescaped quote.
fn reference_within_quotes(bytes: &[u8]) -> Vec<bool> {
    let mut result = Vec::with_capacity(bytes.len());
    let mut within = false;
    let mut escaped = false;
    for &b in bytes {
        let unescaped_quote = b == b'"' && !escaped;
        result.push(within && !unescaped_quote);
        if unescaped_quote {
            within = !within;
        }
        escaped = b == b'\\' && !escaped;
    }
    result
}

fn classified_bits(bytes: &[u8]) -> Vec<bool> {
    let mut classifier = QuoteClassifier::new();
    let mut bits = Vec::with_capacity(bytes.len());
    let mut base = 0;
    while base < bytes.len() {
        let block_len = std::cmp::min(64, bytes.len() - base);
        let mask = classifier.classify_block(&bytes[base..base + block_len]);
        for k in 0..block_len {
            bits.push((mask >> k) & 1 == 1);
        }
        base += block_len;
    }
    bits
}

#[test]
fn quote_classifier_matches_direct_scan_within_one_block() {
    let bytes = br#"{"key":"va\"lue","x":2}"#;
    assert_eq!(reference_within_quotes(bytes), classified_bits(bytes));
}

#[test]
fn quote_classifier_matches_direct_scan_over_block_boundaries() {
    // A document longer than two blocks, with quotes and escapes placed so
    // that strings and backslash runs straddle the 64-byte boundaries.
    let mut doc: Vec<u8> = Vec::new();
    doc.extend_from_slice(br#"{"first":"a string that runs on and on to cross the boundary \\""#);
    doc.extend_from_slice(br#","second":"more \" text","third":{"inner\\":"x:y{z}"},"t":12}"#);
    assert!(doc.len() > 64);
    assert_eq!(reference_within_quotes(&doc), classified_bits(&doc));
}

#[test]
fn quote_classifier_carries_escape_state_across_blocks() {
    // 63 filler bytes, then a backslash as the last byte of the first block,
    // escaping the quote that opens the second block.
    let mut doc: Vec<u8> = vec![b'x'; 63];
    doc.push(b'\\');
    doc.extend_from_slice(br#""abc"def""#);
    assert_eq!(reference_within_quotes(&doc), classified_bits(&doc));
}

#[test]
fn quote_classifier_flip_quotes_bit_flips_the_parity() {
    let bytes = b"abcd";
    let mut classifier = QuoteClassifier::new();
    classifier.flip_quotes_bit();
    let mask = classifier.classify_block(bytes);
    // With the parity flipped the plain bytes classify as in-string.
    assert_eq!(mask & 0xF, 0xF);

    let mut unflipped = QuoteClassifier::new();
    let mask = unflipped.classify_block(bytes);
    assert_eq!(mask & 0xF, 0);
}

#[test]
fn classify_structural_characters_emits_events_in_order() {
    let doc = br#"{"a":1}"#;
    let events = classify_structural_characters(doc);
    assert_eq!(
        events,
        vec![
            StructuralEvent::Opening(0),
            StructuralEvent::Colon(4),
            StructuralEvent::Closing(6),
        ]
    );
}

#[test]
fn classify_structural_characters_skips_characters_inside_strings() {
    let doc = br#"{"a{b}:c":{"x":"}"}}"#;
    let events = classify_structural_characters(doc);
    assert_eq!(
        events,
        vec![
            StructuralEvent::Opening(0),
            StructuralEvent::Colon(9),
            StructuralEvent::Opening(10),
            StructuralEvent::Colon(14),
            StructuralEvent::Closing(18),
            StructuralEvent::Closing(19),
        ]
    );
}

fn label_of(s: &str) -> Label {
    Label::new(s.as_bytes().to_vec())
}

fn query_of(labels: &[&str]) -> JsonPathQuery {
    let mut chain: Option<Box<JsonPathQueryNode>> = None;
    for name in labels.iter().rev() {
        let label_node = JsonPathQueryNode::Label(label_of(name), chain);
        chain = Some(Box::new(JsonPathQueryNode::Descendant(Box::new(label_node))));
    }
    JsonPathQuery::new(JsonPathQueryNode::Root(chain))
}

fn run_count(labels: &[&str], doc: &str) -> usize {
    let query = query_of(labels);
    let runner = StacklessRunner::compile_query(&query);
    runner.count(doc.as_bytes()).count
}

/// Naive recursive-descent reference: walk the JSON value and count the
/// nodes whose key chain matches the remaining labels, descending with the
/// next label after a match and with the same label otherwise.
fn naive_count(bytes: &[u8], at: usize, labels: &[&[u8]], state: usize) -> (usize, usize) {
    if bytes[at] == b'{' {
        let mut i = at + 1;
        let mut total = 0;
        if bytes[i] == b'}' {
            return (i + 1, 0);
        }
        loop {
            assert_eq!(bytes[i], b'"');
            let mut j = i + 1;
            while bytes[j] != b'"' {
                j += if bytes[j] == b'\\' { 2 } else { 1 };
            }
            let key = &bytes[i + 1..j];
            i = j + 1;
            assert_eq!(bytes[i], b':');
            i += 1;
            if key == labels[state - 1] {
                if state == labels.len() {
                    let (end, inner) = naive_count(bytes, i, labels, state);
                    total += 1 + inner;
                    i = end;
                } else {
                    let (end, inner) = naive_count(bytes, i, labels, state + 1);
                    total += inner;
                    i = end;
                }
            } else {
                let (end, inner) = naive_count(bytes, i, labels, state);
                total += inner;
                i = end;
            }
            if bytes[i] == b',' {
                i += 1;
            } else {
                assert_eq!(bytes[i], b'}');
                return (i + 1, total);
            }
        }
    } else if bytes[at] == b'"' {
        let mut j = at + 1;
        while bytes[j] != b'"' {
            j += if bytes[j] == b'\\' { 2 } else { 1 };
        }
        (j + 1, 0)
    } else {
        let mut j = at;
        while j < bytes.len() && bytes[j] != b',' && bytes[j] != b'}' {
            j += 1;
        }
        (j, 0)
    }
}

fn reference_count(labels: &[&str], doc: &str) -> usize {
    let labels: Vec<&[u8]> = labels.iter().map(|s| s.as_bytes()).collect();
    let (_, count) = naive_count(doc.as_bytes(), 0, &labels, 1);
    count
}

#[test]
fn automaton_single_label_counts_every_match() {
    let doc = r#"{"a":1,"a":{"a":2}}"#;
    assert_eq!(3, run_count(&["a"], doc));
    assert_eq!(3, reference_count(&["a"], doc));
}

#[test]
fn automaton_two_labels_counts_nested_matches() {
    let doc = r#"{"a":{"b":1,"c":{"b":2}},"b":3}"#;
    assert_eq!(2, run_count(&["a", "b"], doc));
    assert_eq!(2, reference_count(&["a", "b"], doc));
}

#[test]
fn automaton_count_equals_naive_reference() {
    let docs = [
        r#"{"a":1}"#,
        r#"{"b":1}"#,
        r#"{"a":{"a":{"a":{"a":1}}}}"#,
        r#"{"a":{"b":{"a":{"b":1}}},"b":{"a":{"b":2}}}"#,
        r#"{"x":{"a":"b","b":{"a":{"c":1,"b":"}"},"ab":7}},"a":{"b":{"b":{"b":0}}}}"#,
        r#"{"label":{"key:":"va{l}ue","a":{"b":{"c":"d"}}},"a":{"b":{"c":{"d":1}}}}"#,
        r#"{"a":"a","b":"\"a\":0","a":{"a":"x"}}"#,
    ];
    let queries: [&[&str]; 5] = [
        &["a"],
        &["b"],
        &["a", "b"],
        &["a", "b", "c"],
        &["a", "a"],
    ];
    for doc in docs {
        for labels in queries {
            assert_eq!(
                reference_count(labels, doc),
                run_count(labels, doc),
                "failed for query {:?} on document {}",
                labels,
                doc
            );
        }
    }
}

#[test]
fn automaton_retracts_the_state_when_leaving_the_match_context() {
    // "b" under the first "a" is a match; the second "b" is outside any "a"
    // and does not count.
    let doc = r#"{"x":{"a":{"b":1}},"b":2}"#;
    assert_eq!(1, run_count(&["a", "b"], doc));
    assert_eq!(1, reference_count(&["a", "b"], doc));
}

#[test]
fn automaton_ignores_keys_inside_string_values() {
    let doc = r#"{"x":"\"a\":1","a":2}"#;
    assert_eq!(1, run_count(&["a"], doc));
    assert_eq!(1, reference_count(&["a"], doc));
}

#[test]
fn compile_query_collects_the_labels_in_order() {
    let query = query_of(&["alpha", "beta"]);
    let labels = simdpath::stackless::query_to_descendant_pattern_labels(&query);
    assert_eq!(2, labels.len());
    assert_eq!(b"alpha".to_vec(), *labels[0].bytes());
    assert_eq!(b"\"alpha\"".to_vec(), *labels[0].bytes_with_quotes());
    assert_eq!(5, labels[0].len());
    assert_eq!(b"beta".to_vec(), *labels[1].bytes());
}

#[test]
fn descendant_only_automaton_runs_on_a_label_slice() {
    let query = query_of(&["a"]);
    let labels = simdpath::stackless::query_to_descendant_pattern_labels(&query);
    let count = descendant_only_automaton(&labels, br#"{"a":{"a":1}}"#);
    assert_eq!(2, count);
}
