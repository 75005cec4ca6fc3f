use candidate_scanner::{modifier_after_property, Extractor, ExtractorOptions, SplitCandidate};

fn strict() -> ExtractorOptions {
    ExtractorOptions {
        preserve_spaces_in_arbitrary: false,
    }
}

fn loose() -> ExtractorOptions {
    ExtractorOptions {
        preserve_spaces_in_arbitrary: true,
    }
}

fn texts<'a>(v: &[&'a [u8]]) -> Vec<&'a str> {
    v.iter().map(|s| std::str::from_utf8(s).unwrap()).collect()
}

#[test]
fn all_keeps_repeats_in_order() {
    let found = Extractor::all(b"flex p-4 flex", strict());
    assert_eq!(texts(&found), vec!["flex", "p-4", "flex"]);
}

#[test]
fn unique_ord_drops_later_repeats() {
    let input = b"flex p-4 flex m-2 p-4 {a:b} a";
    let all = Extractor::all(input, strict());
    let ord = Extractor::unique_ord(input, strict());
    let mut expected: Vec<&[u8]> = Vec::new();
    for c in all.iter() {
        if !expected.contains(c) {
            expected.push(c);
        }
    }
    assert_eq!(ord, expected);
    assert_eq!(texts(&ord), vec!["flex", "p-4", "m-2", "a:b", "a", "b"]);
}

#[test]
fn unique_holds_each_candidate_once() {
    let set = Extractor::unique(b"flex p-4 flex", strict());
    assert_eq!(set.len(), 2);
    assert!(set.contains(&b"flex"[..]));
    assert!(set.contains(&b"p-4"[..]));
}

#[test]
fn scanning_twice_gives_the_same_result() {
    let input = b"<div class=\"hover:[&>*]:underline m-[2px] {color:red}\"></div>";
    assert_eq!(Extractor::all(input, strict()), Extractor::all(input, strict()));
    assert_eq!(Extractor::all(input, loose()), Extractor::all(input, loose()));
}

#[test]
fn noisy_inputs_end_with_non_empty_groups() {
    let mut inputs: Vec<Vec<u8>> = vec![
        Vec::new(),
        b"[[[[[[[[".to_vec(),
        b"]]]]]]]]".to_vec(),
        b"[]{}()[]".to_vec(),
        "日本語のテキスト a-b".as_bytes().to_vec(),
        vec![0xff, 0xfe, b'a', 0x00, b'b', b'['],
    ];
    let mut seed: u32 = 7;
    for _ in 0..50 {
        let mut v = Vec::new();
        for _ in 0..64 {
            seed = seed.wrapping_mul(1103515245).wrapping_add(12345);
            v.push((seed >> 16) as u8);
        }
        inputs.push(v);
    }
    for input in inputs.iter() {
        let mut ex = Extractor::new(input, strict());
        while let Some(group) = ex.next() {
            assert!(!group.is_empty());
            assert!(group.iter().all(|s| !s.is_empty()));
        }
    }
}

#[test]
fn next_yields_a_nested_group() {
    let mut ex = Extractor::new(b"{color:red}", strict());
    let group = ex.next().unwrap();
    assert_eq!(texts(&group), vec!["color:red", "color:red", "color", "red"]);
    assert_eq!(ex.next(), None);
}

#[test]
fn nested_group_splits_only_at_top_level_colons() {
    let found = Extractor::all(b"{a:[b:c]}", strict());
    assert_eq!(texts(&found), vec!["a:[b:c]", "a:[b:c]", "a", "[b:c]"]);
}

#[test]
fn a_zero_byte_only_ends_the_candidate() {
    let found = Extractor::all(b"flex\0underline", strict());
    assert_eq!(texts(&found), vec!["flex", "underline"]);
    let found = Extractor::all(b"a\0b", strict());
    assert_eq!(texts(&found), vec!["a", "b"]);
    let found = Extractor::all(b"\0\0m-[2px]\0", strict());
    assert_eq!(texts(&found), vec!["m-[2px]"]);
}

#[test]
fn split_candidate_uses_last_unbracketed_colon() {
    let c: &[u8] = b"[.foo_&]:md:[color:red]";
    let s: SplitCandidate = Extractor::split_candidate(c);
    assert_eq!(s.variant, &b"[.foo_&]:md:"[..]);
    assert_eq!(s.utility, &b"[color:red]"[..]);
    let plain = Extractor::split_candidate(b"underline");
    assert_eq!(plain.variant, &b""[..]);
    assert_eq!(plain.utility, &b"underline"[..]);
}

#[test]
fn constrained_search_skips_brackets() {
    assert!(!Extractor::contains_in_constrained(b"[a>b]", vec![b'<', b'>']));
    assert!(Extractor::contains_in_constrained(b"a>b", vec![b'<', b'>']));
    assert!(Extractor::contains_in_constrained(b"]>", vec![b'<', b'>']));
}

#[test]
fn validator_verdicts() {
    assert_eq!(Extractor::is_valid_candidate_string(b"underline"), (true, false));
    assert_eq!(Extractor::is_valid_candidate_string(b"a<b"), (false, true));
    assert_eq!(Extractor::is_valid_candidate_string(b"sm:<md"), (false, true));
    assert_eq!(Extractor::is_valid_candidate_string(b"hover:"), (false, false));
    assert_eq!(Extractor::is_valid_candidate_string(b"2xl"), (false, false));
    assert_eq!(Extractor::is_valid_candidate_string(b"[a:b]"), (true, false));
    assert_eq!(Extractor::is_valid_candidate_string(b"[a:b]x]"), (true, false));
    assert_eq!(Extractor::is_valid_candidate_string(b"[:bb]"), (false, false));
    assert_eq!(Extractor::is_valid_candidate_string(b"[-:bb]"), (false, false));
    assert_eq!(Extractor::is_valid_candidate_string(b"-[a:b]"), (false, false));
    assert_eq!(Extractor::is_valid_candidate_string(b"[a:b]/50"), (false, false));
    assert_eq!(Extractor::is_valid_candidate_string("[é:bb]".as_bytes()), (false, false));
    assert_eq!(Extractor::is_valid_candidate_string("[éa:bb]".as_bytes()), (true, false));
    assert_eq!(Extractor::is_valid_candidate_string("[€:b]".as_bytes()), (false, false));
    assert_eq!(Extractor::is_valid_candidate_string("[ab:é]".as_bytes()), (true, false));
    assert_eq!(Extractor::is_valid_candidate_string("[aé]/b".as_bytes()), (false, false));
    assert_eq!(Extractor::is_valid_candidate_string("[aé]b/".as_bytes()), (true, false));
    assert_eq!(Extractor::is_valid_candidate_string(br"[a\]/b"), (true, false));
}

#[test]
fn balance_checks() {
    assert!(Extractor::is_balanced(b""));
    assert!(Extractor::is_balanced(b"a(b[c]{d})"));
    assert!(!Extractor::is_balanced(b")("));
    assert!(!Extractor::is_balanced(b"(("));
}

#[test]
fn deep_nesting_is_peeled() {
    let count = 5_000;
    let input = format!("{}x:y{}", "(".repeat(count), ")".repeat(count));
    assert_eq!(Extractor::slice_surrounding(input.as_bytes()), Some(&b"x:y"[..]));
}

#[test]
fn separators_are_trimmed_at_the_end() {
    let found = Extractor::all(b"hover: ", strict());
    assert_eq!(texts(&found), vec!["hover"]);
}

#[test]
fn spaces_in_arbitrary_values_restart_or_stay() {
    assert_eq!(texts(&Extractor::all(b"bg-[rgba(0, 0, 0)]", strict())), vec!["rgba"]);
    assert_eq!(
        texts(&Extractor::all(b"bg-[rgba(0, 0, 0)]", loose())),
        vec!["bg-[rgba(0, 0, 0)]"]
    );
}

#[test]
fn modifier_follows_the_first_unescaped_close() {
    let v: &[u8] = b"[a]/b";
    let chars: Vec<char> = vec!['[', 'a', ']', '/', 'b'];
    let indices = vec![(0, 1, '['), (1, 2, 'a'), (2, 3, ']'), (3, 4, '/'), (4, 5, 'b')];
    assert!(modifier_after_property(v, &chars, &indices));
    let w: &[u8] = br"[\]]/";
    let chars: Vec<char> = vec!['[', '\\', ']', ']', '/'];
    let indices = vec![(0, 1, '['), (1, 2, '\\'), (2, 3, ']'), (3, 4, ']'), (4, 5, '/')];
    assert!(modifier_after_property(w, &chars, &indices));
    let x: &[u8] = br"[\]/";
    let chars: Vec<char> = vec!['[', '\\', ']', '/'];
    let indices = vec![(0, 1, '['), (1, 2, '\\'), (2, 3, ']'), (3, 4, '/')];
    assert!(!modifier_after_property(x, &chars, &indices));
    let y: &[u8] = "[é]/".as_bytes();
    let chars: Vec<char> = vec!['[', 'é', ']', '/'];
    let indices = vec![(0, 1, '['), (1, 3, 'é'), (3, 4, ']'), (4, 5, '/')];
    assert!(modifier_after_property(y, &chars, &indices));
}
