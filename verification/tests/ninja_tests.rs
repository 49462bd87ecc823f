use xmark::ninja::{escape, escape_path, BuildOptions, NinjaWritter};

#[test]
fn it_works() {
    assert_eq!(2 + 2, 4);
}

fn line_test(inp: &str, out: &str) {
    let mut ninja = NinjaWritter::with_width(8);
    ninja.line(inp.as_bytes());
    assert_eq!(String::from_utf8(ninja.output).unwrap(), out);
}

#[test]
fn single_long_word() {
    line_test("aaaaaaaaaa", "aaaaaaaaaa\n");
}

#[test]
fn few_long_words() {
    line_test(
        "x 0123456789 y",
        "\
x $
    0123456789 $
    y
",
    );
}

#[test]
fn comment_wrap() {
    let mut ninja = NinjaWritter::with_width(8);
    ninja.comment("Hello /usr/local/build-tools/bin");
    assert_eq!(
        String::from_utf8(ninja.output).unwrap(),
        "\
# Hello
# /usr/local/build-tools/bin
"
    );
}

#[test]
fn short_words_indented() {
    line_test(
        "line_one to tree",
        "\
line_one $
    to $
    tree
",
    );
}

#[test]
fn short_words_indented2() {
    line_test(
        "lineone to tree",
        "\
lineone $
    to $
    tree
",
    );
}

#[test]
fn escaped_spaces() {
    line_test(
        "x aaaaa$ aaaaa y",
        "\
x $
    aaaaa$ aaaaa $
    y
",
    )
}

#[test]
fn fit_many_words() {
    let mut ninja = NinjaWritter::with_width(78);
    ninja.line_indent(b"command = cd ../../chrome; python ../tools/grit/grit/format/repack.py ../out/Debug/obj/chrome/chrome_dll.gen/repack/theme_resources_large.pak ../out/Debug/gen/chrome/theme_resources_large.pak", 1);
    assert_eq!(
        String::from_utf8(ninja.output).unwrap(),
        "  \
command = cd ../../chrome; python ../tools/grit/grit/format/repack.py $
      ../out/Debug/obj/chrome/chrome_dll.gen/repack/theme_resources_large.pak $
      ../out/Debug/gen/chrome/theme_resources_large.pak
"
    )
}

#[test]
fn escape_guards_spaces_and_colons() {
    assert_eq!(escape_path("a b:c"), "a$ b$:c");
    assert_eq!(escape_path("pre$ kept"), "pre$$$ kept");
}

#[test]
fn escape_doubles_dollars_and_refuses_newlines() {
    assert_eq!(escape("money$bag").as_deref(), Some("money$$bag"));
    assert!(escape("two\nlines").is_none());
}

#[test]
fn variables_and_statements() {
    let mut ninja = NinjaWritter::new();
    ninja.variable("cc", "gcc");
    ninja.newline();
    ninja.pool("link_pool", "4");
    ninja.subninja("sub.ninja");
    ninja.default(&["all"]);
    assert_eq!(
        String::from_utf8(ninja.output).unwrap(),
        "cc = gcc\n\npool link_pool\n  depth = 4\nsubninja sub.ninja\ndefault all\n"
    );
}

#[test]
fn build_statement_with_everything() {
    let mut ninja = NinjaWritter::new();
    let opts = BuildOptions {
        inputs: Some(&["in a.c", "b.c"]),
        implicit: Some(&["dep.h"]),
        order_only: Some(&["gen"]),
        variables: Some(vec![("desc", "compile")]),
        implicit_outputs: Some(&["out.d"]),
        pool: Some("link_pool"),
    };
    ninja.build(&["out.o"], "cc", opts);
    assert_eq!(
        String::from_utf8(ninja.output).unwrap(),
        "build out.o | out.d: cc in$ a.c b.c | dep.h || gen\n  pool = link_pool\n  desc = compile\n"
    );
}

#[test]
fn build_statement_bare() {
    let mut ninja = NinjaWritter::new();
    ninja.build(&["x"], "touch", BuildOptions::default());
    assert_eq!(String::from_utf8(ninja.output).unwrap(), "build x: touch \n");
}
