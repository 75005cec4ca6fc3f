use candidate_scanner::{Extractor, ExtractorOptions};

fn run(input: &str, loose: bool) -> Vec<&str> {
    Extractor::unique_ord(
        input.as_bytes(),
        ExtractorOptions {
            preserve_spaces_in_arbitrary: loose,
        },
    )
    .into_iter()
    .map(|s| std::str::from_utf8(s).unwrap())
    .collect()
}

#[test]
fn it_can_parse_simple_candidates() {
    let candidates = run("underline", false);
    assert_eq!(candidates, vec!["underline"]);
}

#[test]
fn it_can_parse_multiple_simple_utilities() {
    let candidates = run("font-bold underline", false);
    assert_eq!(candidates, vec!["font-bold", "underline"]);
}

#[test]
fn it_can_parse_simple_candidates_with_variants() {
    let candidates = run("hover:underline", false);
    assert_eq!(candidates, vec!["hover:underline"]);
}

#[test]
fn it_can_parse_simple_candidates_with_stacked_variants() {
    let candidates = run("focus:hover:underline", false);
    assert_eq!(candidates, vec!["focus:hover:underline"]);
}

#[test]
fn it_can_parse_utilities_with_arbitrary_values() {
    let candidates = run("m-[2px]", false);
    assert_eq!(candidates, vec!["m-[2px]"]);
}

#[test]
fn it_can_parse_utilities_with_arbitrary_values_and_variants() {
    let candidates = run("hover:m-[2px]", false);
    assert_eq!(candidates, vec!["hover:m-[2px]"]);
}

#[test]
fn it_can_parse_arbitrary_variants() {
    let candidates = run("[@media(min-width:200px)]:underline", false);
    assert_eq!(candidates, vec!["[@media(min-width:200px)]:underline"]);
}

#[test]
fn it_can_parse_matched_variants() {
    let candidates = run("group-[&:hover]:underline", false);
    assert_eq!(candidates, vec!["group-[&:hover]:underline"]);
}

#[test]
fn it_should_not_keep_spaces() {
    let candidates = run("bg-[rgba(0, 0, 0)]", false);

    assert_eq!(candidates, vec!["rgba"]);
}

#[test]
fn it_should_keep_spaces_in_loose_mode() {
    let candidates = run("bg-[rgba(0, 0, 0)]", true);
    assert_eq!(candidates, vec!["bg-[rgba(0, 0, 0)]"]);
}

#[test]
fn it_should_keep_important_arbitrary_properties() {
    let candidates = run("![foo:bar]", false);
    assert_eq!(candidates, vec!["![foo:bar]"]);
}

#[test]
fn it_should_not_allow_for_bogus_candidates() {
    let candidates = run("[0]", false);
    assert!(candidates.is_empty());

    let candidates = run("[something]", false);
    assert!(candidates.is_empty());

    let candidates = run("[color:red]/dark", false);
    assert!(candidates.is_empty());

    let candidates = run("[color:red]/[0.5]", false);
    assert!(candidates.is_empty());

    let candidates = run(" [feature(slice_as_chunks)]", false);
    assert!(candidates.is_empty());

    let candidates = run("![feature(slice_as_chunks)]", false);
    assert!(candidates.is_empty());

    let candidates = run("-[feature(slice_as_chunks)]", false);
    assert!(candidates.is_empty());

    let candidates = run("!-[feature(slice_as_chunks)]", false);
    assert!(candidates.is_empty());

    let candidates = run("-[foo:bar]", false);
    assert!(candidates.is_empty());

    let candidates = run("!-[foo:bar]", false);
    assert!(candidates.is_empty());
}

#[test]
fn it_should_keep_candidates_with_brackets_in_arbitrary_values_inside_quotes() {
    let candidates = run("content-['hello_[_]_world']", false);
    assert_eq!(candidates, vec!["content-['hello_[_]_world']"]);
}

#[test]
fn it_should_ignore_leading_spaces() {
    let candidates = run("        backdrop-filter-none", false);
    assert_eq!(candidates, vec!["backdrop-filter-none"]);
}

#[test]
fn it_should_ignore_trailing_spaces() {
    let candidates = run("backdrop-filter-none        ", false);
    assert_eq!(candidates, vec!["backdrop-filter-none"]);
}

#[test]
fn it_should_keep_classes_before_an_ending_newline() {
    let candidates = run("backdrop-filter-none\n", false);
    assert_eq!(candidates, vec!["backdrop-filter-none"]);
}

#[test]
fn it_should_parse_out_the_correct_classes_from_tailwind_tests() {
    let candidates = run(
        r#"
            <div class="dark:lg:hover:[&>*]:underline"></div>

            <div class="[&_.foo\_\_bar]:hover:underline"></div>
            <div class="hover:[&_.foo\_\_bar]:underline"></div>
        "#,
        false,
    );
    assert_eq!(
        candidates,
        vec![
            "div",
            "class",
            r#"dark:lg:hover:[&>*]:underline"#,
            r#"[&_.foo\_\_bar]:hover:underline"#,
            r#"hover:[&_.foo\_\_bar]:underline"#
        ]
    );
}

#[test]
fn potential_candidates_are_skipped_when_hitting_impossible_characters() {
    let candidates = run("        <p class=\"text-sm text-blue-700\">A new software update is available. See what’s new in version 2.0.4.</p>", false);
    assert_eq!(
        candidates,
        vec![
            "p",
            "class",
            "text-sm",
            "text-blue-700",
            "A",
            "new",
            "software",
            "update",
            "is",
            "available.",
            "See",
            // "what", // what is dropped because it is followed by the fancy: ’
            // "s",    // s is dropped because it is preceeded by the fancy: ’
            // "new", // Already seen
            "in",
            "version",
        ]
    );
}

#[test]
fn ignores_arbitrary_property_ish_things() {
    let candidates = run(" [feature(slice_as_chunks)]", false);
    assert!(candidates.is_empty());
}

#[test]
fn foo_bar() {
    // w[…] is not a valid pattern for part of candidate
    // but @[] is (specifically in the context of a variant)

    let candidates = run("%w[text-[#bada55]]", false);
    assert_eq!(candidates, vec!["w", "text-[#bada55]"]);
}

#[test]
fn crash_001() {
    let candidates = run("Aҿɿ[~5", false);
    assert!(candidates.is_empty());
}

#[test]
fn crash_002() {
    let candidates = run("", false);
    assert!(candidates.is_empty());
}

#[test]
fn bad_001() {
    let candidates = run("[杛杛]/", false);
    assert!(candidates.is_empty())
}

#[test]
fn bad_002() {
    let candidates = run(r"[\]\\\:[]", false);
    assert!(candidates.is_empty());
}

#[test]
fn bad_003() {
    let candidates = run(r"[𕤵:]", false);
    assert!(candidates.is_empty());
}

#[test]
fn classes_in_js_arrays() {
    let candidates = run(
        r#"let classes = ['bg-black', 'hover:px-0.5', 'text-[13px]', '[--my-var:1_/_2]', '[.foo_&]:px-[0]', '[.foo_&]:[color:red]']">"#,
        false,
    );
    assert_eq!(
        candidates,
        vec![
            "let",
            "classes",
            "bg-black",
            "hover:px-0.5",
            "text-[13px]",
            "[--my-var:1_/_2]",
            "--my-var:1_/_2",
            "--my-var",
            "1_/_2",
            "[.foo_&]:px-[0]",
            "[.foo_&]:[color:red]",
        ]
    );
}

#[test]
fn classes_as_object_keys() {
    let candidates = run(
        r#"<div :class="{ underline: isActive, 'px-1.5': isOnline }"></div>"#,
        false,
    );
    assert_eq!(
        candidates,
        vec!["div", "class", "underline", "isActive", "px-1.5", "isOnline"]
    );
}

#[test]
fn multiple_nested_candidates() {
    let candidates = run(
        r#"{color:red}"#,
        false,
    );
    assert_eq!(
        candidates,
        vec!["color:red", "color", "red"]
    );
}

#[test]
fn wipit_wipit_good() {
    let result = Extractor::slice_surrounding(&b".foo_&]:px-[0"[..]).map(std::str::from_utf8).transpose().unwrap();
    assert_eq!(result, None);

    let result = Extractor::slice_surrounding(&b"[.foo_&]:px-[0]"[..]).map(std::str::from_utf8).transpose().unwrap();
    assert_eq!(result, Some("[.foo_&]:px-[0]"));

    let result = Extractor::slice_surrounding(&b"{[.foo_&]:px-[0]}"[..]).map(std::str::from_utf8).transpose().unwrap();
    assert_eq!(result, Some("[.foo_&]:px-[0]"));

    let result = Extractor::slice_surrounding(&b"![foo:bar]"[..]).map(std::str::from_utf8).transpose().unwrap();
    assert_eq!(result, None);

    let count = 1_000;
    let crazy = format!("{}[.foo_&]:px-[0]{}", "[".repeat(count), "]".repeat(count));

    let result = Extractor::slice_surrounding(&crazy.as_bytes()).map(std::str::from_utf8).transpose().unwrap();
    assert_eq!(result, Some("[.foo_&]:px-[0]"));
}
