use xmark::collect::{output_loc, Book, Content, Dirs, Page};
use xmark::config::{Args, Book as ConfigBook, GlobalConf, GlobalConfigRepr, HtmlConf, Location};
use xmark::config::hydrate;
use xmark::drafts::stub_files;
use xmark::pagetoc::PageToc;
use xmark::summary::parse_summary;

fn test_output_loc(md: &str, out: &str, base: &str, expected: &str) {
    assert_eq!(output_loc(md, out, base).unwrap(), expected);
}

#[test]
fn content_output_locs() {
    test_output_loc(
        "/tmp/x/y.md",
        "/tmp/x/out",
        "/tmp/x/",
        "/tmp/x/out/y/index.html",
    );
    test_output_loc(
        "/tmp/x/z/README.md",
        "/tmp/x/out",
        "/tmp/x",
        "/tmp/x/out/z/index.html",
    );
    test_output_loc(
        "/tmp/x/z.md",
        "/tmp/x/out",
        "/tmp/x",
        "/tmp/x/out/z/index.html",
    );
    test_output_loc(
        "/tmp/zz/foo.md",
        "/xmark/",
        "/tmp/zz/",
        "/xmark/foo/index.html",
    );
}

#[test]
fn mod_output_locs() {
    test_output_loc(
        "/tmp/x/y.md",
        "/tmp/x/out",
        "/tmp/x/",
        "/tmp/x/out/y/index.html",
    );
    test_output_loc(
        "/tmp/x/z/README.md",
        "/tmp/x/out",
        "/tmp/x",
        "/tmp/x/out/z/index.html",
    );
    test_output_loc(
        "/tmp/x/z.md",
        "/tmp/x/out",
        "/tmp/x",
        "/tmp/x/out/z/index.html",
    );
    test_output_loc(
        "/tmp/zz/foo.md",
        "/xmark/",
        "/tmp/zz/",
        "/xmark/foo/index.html",
    );
}

#[test]
fn output_loc_rejects_a_path_outside_the_base() {
    assert!(output_loc("/elsewhere/y.md", "/tmp/x/out", "/tmp/x").is_err());
}

fn test_page_url(out_file: &str, base_url: &str, out_dir: &str, expected: &str) {
    let page = Page {
        name: String::new(),
        output: String::from(out_file),
        input: String::new(),
        toc: PageToc::default(),
        next: None,
        prev: None,
        heirachy: Vec::new(),
    };
    let dirs = Dirs {
        base_url: String::from(base_url),
        out_dir: String::from(out_dir),
        base_dir: String::new(),
    };
    let url = page.url(&dirs).unwrap();
    assert_eq!(url, expected);
}

#[test]
fn content_urls() {
    test_page_url("/out/x/y/index.html", "/", "/out", "/x/y");
    test_page_url(
        "/usr/src/fx/_out/html/book3/cd/f/index.html",
        "/books/",
        "/usr/src/fx/_out/html",
        "/books/book3/cd/f",
    )
}

#[test]
fn mod_urls() {
    test_page_url("/out/x/y/index.html", "/", "/out", "/x/y");
    test_page_url(
        "/usr/src/fx/_out/html/book3/cd/f/index.html",
        "/books/",
        "/usr/src/fx/_out/html",
        "/books/book3/cd/f",
    )
}

#[test]
fn content_empty_conf() {
    let args = Dirs::default();
    let conf = GlobalConf::default();
    let content = Content::new(&conf, &args).unwrap();
    assert_eq!(content.0.len(), 0);
}

#[test]
fn mod_empty_conf() {
    let args = Dirs::default();
    let conf = GlobalConf::default();
    let content = Content::new(&conf, &args).unwrap();
    assert_eq!(content.0.len(), 0);
}

#[test]
fn content_empty_book() {
    let args = Dirs::default();
    let book = ConfigBook::default();
    let conf = GlobalConf { books: vec![book], html: HtmlConf::default() };
    let content = Content::new(&conf, &args).unwrap();
    assert_eq!(content.0.len(), 1);
    assert_eq!(content.0[0].title, "");
    assert!(content.0[0].pages.is_empty());
    assert!(content.0[0].redirects.is_empty());
}

#[test]
fn mod_empty_book() {
    let args = Dirs::default();
    let book = ConfigBook::default();
    let conf = GlobalConf { books: vec![book], html: HtmlConf::default() };
    let content = Content::new(&conf, &args).unwrap();
    assert_eq!(content.0.len(), 1);
    assert!(content.0[0].pages.is_empty());
    assert!(content.0[0].redirects.is_empty());
}

fn demo_book() -> ConfigBook {
    let src = "# Demo\n[Intro](./intro.md)\n\n- [One](./one.md)\n  - [Deep](./deep.md)\n- [Draft]()\n- [Two](./two.md)\n";
    let summary = parse_summary(src).unwrap();
    let gcr = GlobalConfigRepr { books: vec![String::from("demo")], html: HtmlConf::default() };
    let args = Args { dir: String::from("/ws"), create: false, templates: None };
    let conf = hydrate(gcr, &args, vec![summary]);
    let mut books = conf.books;
    books.pop().unwrap()
}

fn demo_dirs() -> Dirs {
    Dirs {
        base_dir: String::from("/ws"),
        out_dir: String::from("/ws/_out/html"),
        base_url: String::from("/"),
    }
}

#[test]
fn pages_follow_document_order_without_drafts() {
    let book = demo_book();
    let dirs = demo_dirs();
    let built = Book::new(&book, &dirs).unwrap();

    assert_eq!(built.title, "Demo");
    let names: Vec<&str> = built.pages.iter().map(|p| p.name.as_str()).collect();
    // The draft chapter stands in the summary tree but not among the pages.
    assert!(book.summary.numbered_chapters.iter().any(|l| l.chapter.name == "Draft"));
    assert_eq!(names, vec!["Intro", "One", "Deep", "Two"]);
    assert_eq!(built.pages[0].output, "/ws/_out/html/demo/./intro/index.html");
    assert_eq!(built.pages[0].input, "/ws/demo/./intro.md");
}

#[test]
fn pages_chain_prev_and_next() {
    let book = demo_book();
    let dirs = demo_dirs();
    let built = Book::new(&book, &dirs).unwrap();

    let n = built.pages.len();
    assert_eq!(n, 4);
    assert!(built.pages[0].prev.is_none());
    assert!(built.pages[n - 1].next.is_none());
    for i in 0..n - 1 {
        let next_url = built.pages[i + 1].url(&dirs).unwrap();
        let prev_url = built.pages[i].url(&dirs).unwrap();
        assert_eq!(built.pages[i].next.as_deref(), Some(next_url.as_str()));
        assert_eq!(built.pages[i + 1].prev.as_deref(), Some(prev_url.as_str()));
    }
}

#[test]
fn breadcrumbs_run_from_the_title_to_the_page() {
    let book = demo_book();
    let dirs = demo_dirs();
    let built = Book::new(&book, &dirs).unwrap();

    let deep = &built.pages[2];
    assert_eq!(deep.name, "Deep");
    let names: Vec<&str> = deep.heirachy.iter().map(|l| l.prity.as_str()).collect();
    assert_eq!(names, vec!["Demo", "One", "Deep"]);
    assert_eq!(deep.heirachy[0].link, "/demo");
}

#[test]
fn redirect_points_at_the_first_page() {
    let book = demo_book();
    let dirs = demo_dirs();
    let built = Book::new(&book, &dirs).unwrap();

    assert_eq!(built.redirects.len(), 1);
    assert_eq!(built.redirects[0].0, "/ws/_out/html/demo/index.html");
    assert_eq!(built.redirects[0].1, "/demo/intro");
}

#[test]
fn a_root_readme_needs_no_redirect() {
    let src = "# R\n- [Home](README.md)\n";
    let summary = parse_summary(src).unwrap();
    let gcr = GlobalConfigRepr { books: vec![String::from("r")], html: HtmlConf::default() };
    let args = Args { dir: String::from("/ws"), create: false, templates: None };
    let conf = hydrate(gcr, &args, vec![summary]);
    let dirs = demo_dirs();
    let built = Book::new(&conf.books[0], &dirs).unwrap();
    assert_eq!(built.pages.len(), 1);
    assert!(built.redirects.is_empty());
}

#[test]
fn a_book_of_only_drafts_has_no_pages_and_no_redirects() {
    let src = "# D\n- [Only]()\n";
    let summary = parse_summary(src).unwrap();
    let gcr = GlobalConfigRepr { books: vec![String::from("d")], html: HtmlConf::default() };
    let args = Args { dir: String::from("/ws"), create: false, templates: None };
    let conf = hydrate(gcr, &args, vec![summary]);
    let dirs = demo_dirs();
    let built = Book::new(&conf.books[0], &dirs).unwrap();
    assert!(built.pages.is_empty());
    assert!(built.redirects.is_empty());
}

#[test]
fn hydrate_basic() {
    let args = Args { dir: String::from("/home/etc/bax"), create: false, templates: None };
    let gcr = GlobalConfigRepr::default();
    let gc = hydrate(gcr, &args, Vec::new());
    assert!(gc.books.is_empty());
    assert!(gc.html.site_url.is_none());
}

#[test]
fn hydrate_locates_books_and_chapters() {
    let src = "# B\n- [A](./a.md)\n";
    let summary = parse_summary(src).unwrap();
    let gcr = GlobalConfigRepr { books: vec![String::from("book-1")], html: HtmlConf::default() };
    let args = Args { dir: String::from("/ws"), create: false, templates: None };
    let gc = hydrate(gcr, &args, vec![summary]);
    assert_eq!(gc.books.len(), 1);
    assert_eq!(gc.books[0].location, "/ws/book-1");
    assert_eq!(
        gc.books[0].summary.numbered_chapters[0].chapter.location.as_deref(),
        Some("/ws/book-1/./a.md")
    );
}

#[test]
fn dirs_come_from_the_configuration() {
    let conf = GlobalConf {
        books: Vec::new(),
        html: HtmlConf { site_url: Some(String::from("/bookshelf/")) },
    };
    let args = Args { dir: String::from("/ws"), create: false, templates: None };
    let dirs = Dirs::new(&conf, &args);
    assert_eq!(dirs.base_dir, "/ws");
    assert_eq!(dirs.out_dir, "/ws/_out/html");
    assert_eq!(dirs.base_url, "/bookshelf/");

    let bare = Dirs::new(&GlobalConf::default(), &args);
    assert_eq!(bare.base_url, "/");
}

#[test]
fn location_names_and_roots() {
    let bare = Location::Bare(String::from("trpl"));
    assert_eq!(bare.name(), "trpl");
    assert_eq!(bare.root_loc(), "trpl");
    let named = Location::Named { name: String::from("cxx"), root_loc: String::from("cxx/guide/src") };
    assert_eq!(named.name(), "cxx");
    assert_eq!(named.root_loc(), "cxx/guide/src");
}

#[test]
fn stub_files_cover_every_located_chapter() {
    let src = "# S\n[Pre](./pre.md)\n\n- [A](./a.md)\n  - [B](./b.md)\n- [Draft]()\n\n[Post](./post.md)\n";
    let summary = parse_summary(src).unwrap();
    let got = stub_files("/ws/s", &summary);
    let paths: Vec<&str> = got.iter().map(|(p, _)| p.as_str()).collect();
    assert_eq!(
        paths,
        vec!["/ws/s/./pre.md", "/ws/s/./a.md", "/ws/s/./b.md", "/ws/s/./post.md"]
    );
    assert_eq!(got[1].1, "# A\n");
}

#[test]
fn colliding_outputs_are_an_error() {
    // z.md and z/README.md would both render to z/index.html.
    let src = "# C\n- [Flat](z.md)\n- [Nested](z/README.md)\n";
    let summary = parse_summary(src).unwrap();
    let gcr = GlobalConfigRepr { books: vec![String::from("c")], html: HtmlConf::default() };
    let args = Args { dir: String::from("/ws"), create: false, templates: None };
    let conf = hydrate(gcr, &args, vec![summary]);
    let dirs = demo_dirs();
    assert!(Book::new(&conf.books[0], &dirs).is_err());
}
