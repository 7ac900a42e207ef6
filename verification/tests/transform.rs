use jumbler::alpha::classify;
use jumbler::jumbler::JumblerFSM;

/// Run a fresh engine over `input` and return the transformed stream.
fn jumble_bytes(input: &[u8]) -> Vec<u8> {
    let mut fsm = JumblerFSM::new();
    fsm.run(&input.to_vec())
}

/// The maximal alphabetic runs of `input`, as half-open ranges.
fn word_spans(input: &[u8]) -> Vec<(usize, usize)> {
    let mut spans = Vec::new();
    let mut start: Option<usize> = None;
    for (i, &b) in input.iter().enumerate() {
        if classify(b) {
            if start.is_none() {
                start = Some(i);
            }
        } else if let Some(s) = start.take() {
            spans.push((s, i));
        }
    }
    if let Some(s) = start {
        spans.push((s, input.len()));
    }
    spans
}

fn sorted(bytes: &[u8]) -> Vec<u8> {
    let mut v = bytes.to_vec();
    v.sort();
    v
}

/// Check every property of the transform that does not depend on which
/// permutation the shuffle drew.
fn check_jumbled(input: &[u8], output: &[u8]) {
    assert_eq!(output.len(), input.len(), "length must be preserved");
    for (i, &b) in input.iter().enumerate() {
        if !classify(b) {
            assert_eq!(output[i], b, "non-alphabetic byte moved at {}", i);
        }
    }
    for &(s, e) in word_spans(input).iter() {
        assert_eq!(output[s], input[s], "word's first byte moved at {}", s);
        assert_eq!(output[e - 1], input[e - 1], "word's last byte moved at {}", e - 1);
        if e - s >= 2 {
            assert_eq!(
                sorted(&output[s + 1..e - 1]),
                sorted(&input[s + 1..e - 1]),
                "interior multiset changed in {}..{}",
                s,
                e
            );
        }
    }
}

#[test]
fn empty_input_empty_output() {
    assert_eq!(jumble_bytes(b""), Vec::<u8>::new());
}

#[test]
fn short_words_and_punctuation_unchanged() {
    let out = jumble_bytes(b"a b, cd.");
    assert_eq!(out, b"a b, cd.".to_vec());
}

#[test]
fn words_of_length_up_to_three_unchanged() {
    let out = jumble_bytes(b"abc de f ghi");
    assert_eq!(out, b"abc de f ghi".to_vec());
}

#[test]
fn no_alphabetic_bytes_unchanged() {
    let input = b"123 !? ,,,\t\n0987";
    assert_eq!(jumble_bytes(input), input.to_vec());
}

#[test]
fn hello_world_keeps_boundaries_and_interiors() {
    let input = b"hello world";
    let out = jumble_bytes(input);
    check_jumbled(input, &out);
    assert_eq!(out[0], b'h');
    assert_eq!(out[4], b'o');
    assert_eq!(out[5], b' ');
    assert_eq!(out[6], b'w');
    assert_eq!(out[10], b'd');
    assert_eq!(sorted(&out[1..4]), sorted(b"ell"));
    assert_eq!(sorted(&out[7..10]), sorted(b"orl"));
}

#[test]
fn word_ending_at_end_of_stream_is_flushed() {
    let input = b"hello";
    let out = jumble_bytes(input);
    assert_eq!(out.len(), 5);
    assert_eq!(out[0], b'h');
    assert_eq!(out[4], b'o');
    assert_eq!(sorted(&out[1..4]), sorted(b"ell"));
}

#[test]
fn long_mixed_stream_properties() {
    let input = b"The quick, brown fox; jumps over 2 lazy dogs!  extraordinarily";
    let out = jumble_bytes(input);
    check_jumbled(input, &out);
}

#[test]
fn digits_count_as_word_breaks() {
    let input = b"ab1cd2efgh";
    let out = jumble_bytes(input);
    check_jumbled(input, &out);
    // words: "ab", "cd", "efgh" -- only "efgh" may change, within its interior
    assert_eq!(&out[0..6], b"ab1cd2");
    assert_eq!(out[6], b'e');
    assert_eq!(out[9], b'h');
    assert_eq!(sorted(&out[7..9]), sorted(b"fg"));
}

#[test]
fn latin1_letters_classified_as_alphabetic() {
    assert!(classify(b'a'));
    assert!(classify(b'Z'));
    assert!(classify(0xE9)); // e with acute accent
    assert!(classify(0xC0)); // A with grave accent
    assert!(classify(0xAA)); // feminine ordinal indicator
    assert!(classify(0xB5)); // micro sign
    assert!(!classify(0xD7)); // multiplication sign
    assert!(!classify(0xF7)); // division sign
    assert!(!classify(b'1'));
    assert!(!classify(b' '));
    assert!(!classify(0x00));
}

#[test]
fn latin1_letters_join_words() {
    // "c", 0xE9, "t" forms one three-byte word: emitted unchanged.
    let input = [b'c', 0xE9, b't', b'!'];
    assert_eq!(jumble_bytes(&input), input.to_vec());
}

#[test]
fn latin1_word_keeps_boundaries() {
    let input = [0xC0, b'b', 0xE9, b'd', 0xFF, b'.'];
    let out = jumble_bytes(&input);
    check_jumbled(&input, &out);
    assert_eq!(out[0], 0xC0);
    assert_eq!(out[4], 0xFF);
    assert_eq!(out[5], b'.');
}

#[test]
fn stepwise_feeding_matches_whole_stream_properties() {
    let input = b"jumbling works one byte at a time";
    let mut fsm = JumblerFSM::new();
    for &b in input.iter() {
        fsm.step(b);
    }
    let out = fsm.finish();
    check_jumbled(input, &out);
}

#[test]
fn engine_is_reusable_after_finish() {
    let mut fsm = JumblerFSM::new();
    let first = fsm.run(&b"first stream.".to_vec());
    check_jumbled(b"first stream.", &first);
    let second = fsm.run(&b"second!".to_vec());
    check_jumbled(b"second!", &second);
}

#[test]
fn single_letter_stream() {
    assert_eq!(jumble_bytes(b"x"), b"x".to_vec());
}

#[test]
fn trailing_punctuation_after_long_word() {
    let input = b"abcdefghijklmnop.";
    let out = jumble_bytes(input);
    check_jumbled(input, &out);
    assert_eq!(out[0], b'a');
    assert_eq!(out[15], b'p');
    assert_eq!(out[16], b'.');
    assert_eq!(sorted(&out[1..15]), sorted(b"bcdefghijklmno"));
}
