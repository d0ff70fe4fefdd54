use weight::measure::make_weight;

#[test]
fn make_weight_keeps_its_inputs() {
    let w = make_weight(
        String::from("/p/a.ts"),
        String::from("let x: number = 1;"),
        vec![String::from("./b.ts")],
        String::from("let x=1;"),
    );
    assert_eq!(w.path, "/p/a.ts");
    assert_eq!(w.source, "let x: number = 1;");
    assert_eq!(w.imports, vec![String::from("./b.ts")]);
    assert_eq!(w.minified, "let x=1;");
}

#[test]
fn compression_shrinks_redundant_text() {
    let text = "aaaa".repeat(2500);
    let w = make_weight(String::from("/p/a.ts"), text.clone(), Vec::new(), text.clone());
    assert!(w.size > 0, "compressed output is never empty");
    assert!(
        w.size < w.source.len(),
        "a redundant file must measure smaller than its raw length"
    );
}

#[test]
fn measurement_is_deterministic() {
    let text = String::from("function add(a: number, b: number) { return a + b; }");
    let one = make_weight(String::from("/p/a.ts"), text.clone(), Vec::new(), text.clone());
    let two = make_weight(String::from("/p/a.ts"), text.clone(), Vec::new(), text);
    assert_eq!(one.size, two.size);
}

#[test]
fn size_follows_the_minified_text_alone() {
    let raw = String::from("let value    =    1;   // padded");
    let small = make_weight(String::from("/p/a.ts"), raw.clone(), Vec::new(), String::from("let value=1;"));
    let large = make_weight(
        String::from("/p/a.ts"),
        raw,
        Vec::new(),
        "let value=1;".repeat(200),
    );
    assert!(small.size < large.size, "more minified text compresses to more bytes");
}
