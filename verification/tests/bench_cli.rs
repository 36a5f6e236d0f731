use plonkish_backend::bench_cli::{find_k_span, patch_k, toggle_bench_text};

fn toggle(text: &str, bench: &str) -> String {
    let t: Vec<char> = text.chars().collect();
    let b: Vec<char> = bench.chars().collect();
    toggle_bench_text(&t, &b).into_iter().collect()
}

#[test]
fn patch_k_replaces_the_default_k_of_the_circuit_tuple() {
    let src = "let cases = [(Vec::new(), Circuit::Vanilla, 10..27), (Vec::new(), Circuit::Other, 4)];";
    let out = String::from_utf8(patch_k(src, "12")).unwrap();
    assert_eq!(out, "let cases = [(Vec::new(), Circuit::Vanilla, 12), (Vec::new(), Circuit::Other, 4)];");
}

#[test]
fn patch_k_keeps_the_new_k_literally_and_the_rest_of_the_text() {
    let src = "x (Vec::new(),\n    Circuit::Big_1 ,  7) y";
    let out = String::from_utf8(patch_k(src, "3..$1")).unwrap();
    assert_eq!(out, "x (Vec::new(),\n    Circuit::Big_1 ,  3..$1) y");
}

#[test]
fn patch_k_leaves_a_text_without_the_tuple_unchanged() {
    let src = "fn main() { run(10..27); }";
    assert_eq!(patch_k(src, "5"), src.as_bytes().to_vec());
}

#[test]
fn toggle_activates_only_the_chosen_bench_block() {
    let manifest = "[package]\nname = \"benchmark\"\n\n[[bench]]\nname = \"alpha\"\nharness = false\n\n# [[bench]]\n# name = \"beta\"\n# harness = false\n";
    let out = toggle(manifest, "beta");
    assert_eq!(
        out,
        "[package]\nname = \"benchmark\"\n\n# [[bench]]\n# name = \"alpha\"\n# harness = false\n# \n[[bench]]\nname = \"beta\"\nharness = false\n"
    );
}

#[test]
fn toggle_keeps_an_already_active_block_and_the_preamble() {
    let manifest = "[package]\n[[bench]]\nname = \"alpha\"\n";
    assert_eq!(toggle(manifest, "alpha"), manifest);
    // lines before the first block are untouched even if they name the bench
    let manifest = "name = \"alpha\"\n# [[bench]]\n#name = \"gamma\"\r\n";
    assert_eq!(toggle(manifest, "alpha"), "name = \"alpha\"\n# [[bench]]\n#name = \"gamma\"\n");
}

#[test]
fn toggle_of_an_empty_text_is_empty() {
    assert_eq!(toggle("", "alpha"), "");
}

#[test]
fn find_k_span_takes_the_first_tuple_and_unicode_white_space() {
    // a no-break space and an ideographic space count as white space
    let src = "a (Vec::new(),\u{a0}Circuit::X\u{3000},1..2) (Vec::new(), Circuit::Y, 3)";
    let (s, e) = find_k_span(src).unwrap();
    assert_eq!(&src[s..e], "1..2");
    // a tuple with a malformed k is skipped for the next one
    let src = "(Vec::new(), Circuit::A, x) (Vec::new(), Circuit::B, 5..)";
    assert_eq!(find_k_span(src), None);
    let src = "(Vec::new(), Circuit::A, 1..) (Vec::new(),Circuit::B,42)";
    let (s, e) = find_k_span(src).unwrap();
    assert_eq!(&src[s..e], "42");
    // a name needs at least one character
    assert_eq!(find_k_span("(Vec::new(), Circuit::, 4)"), None);
}

#[test]
fn toggle_reads_a_header_indented_by_unicode_white_space() {
    let manifest = "[[bench]]\nname = \"alpha\"\n\u{a0}[[bench]]\nname = \"beta\"\n";
    assert_eq!(
        toggle(manifest, "beta"),
        "# [[bench]]\n# name = \"alpha\"\n\u{a0}[[bench]]\nname = \"beta\"\n"
    );
}
