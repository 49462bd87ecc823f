//! The page-tree builder: flattens a parsed summary into a navigation-ready
//! sequence of pages with breadcrumb hierarchy, previous/next links,
//! on-disk output locations, and the root redirect, ready for the rendering
//! collaborator.

use vstd::prelude::*;

use crate::config;
use crate::pagetoc::PageToc;
use crate::paths::{
    drop_extension, file_name, join, pop_segment, set_file_name, spec_collapse,
    spec_drop_extension, spec_file_name, spec_join, spec_pop, spec_set_file_name,
    spec_strip_prefix, str_eq, strip_prefix, collapse_dot_segments,
};
use crate::summary;

verus! {

/// Where the build reads and writes: the books' common base directory, the
/// output directory, and the site-relative URL prefix.
#[derive(Debug)]
pub struct Dirs {
    pub out_dir: String,
    pub base_dir: String,
    pub base_url: String,
}

/// The directories as mathematical values.
pub struct DirsV {
    pub out_dir: Seq<char>,
    pub base_dir: Seq<char>,
    pub base_url: Seq<char>,
}

impl View for Dirs {
    type V = DirsV;

    open spec fn view(&self) -> DirsV {
        DirsV { out_dir: self.out_dir@, base_dir: self.base_dir@, base_url: self.base_url@ }
    }
}

impl Default for Dirs {
    /// Empty directories, as tests use before any configuration is read.
    fn default() -> (r: Self)
        ensures
            r.out_dir@ == Seq::<char>::empty(),
            r.base_dir@ == Seq::<char>::empty(),
            r.base_url@ == Seq::<char>::empty(),
    {
        Dirs { out_dir: String::new(), base_dir: String::new(), base_url: String::new() }
    }
}

impl Dirs {
    /// The directories for one build: the output goes under the workspace's
    /// build directory, and the URL prefix is the configured site url, or
    /// the root when none is configured.
    pub fn new(conf: &config::GlobalConf, args: &config::Args) -> (r: Dirs)
        ensures
            r.base_dir@ == args.dir@,
            r.out_dir@ == spec_join(spec_join(args.dir@, "_out"@), "html"@),
            r.base_url@ == match conf.html.site_url {
                Some(u) => u@,
                None => "/"@,
            },
    {
        let out_dir = join(join(args.dir.as_str(), "_out").as_str(), "html");
        let base_url = match &conf.html.site_url {
            Some(u) => u.clone(),
            None => "/".to_owned(),
        };
        Dirs { base_dir: args.dir.clone(), out_dir, base_url }
    }
}

/// One breadcrumb: a display name and the URL it links to, relative to the
/// site root.
#[derive(Debug)]
pub struct Link {
    pub prity: String,
    pub link: String,
}

/// A breadcrumb as a mathematical value.
pub struct LinkV {
    pub prity: Seq<char>,
    pub link: Seq<char>,
}

impl View for Link {
    type V = LinkV;

    open spec fn view(&self) -> LinkV {
        LinkV { prity: self.prity@, link: self.link@ }
    }
}

impl Clone for Link {
    /// A clone keeps both parts.
    fn clone(&self) -> (r: Self)
        ensures
            r@ == self@,
    {
        let r = Link { prity: self.prity.clone(), link: self.link.clone() };
        proof {
            assert(r@ == self@);
        }
        r
    }
}

/// One flattened page: its display name, input and output locations, the
/// breadcrumb chain from the book's title down to the page itself, and the
/// links of the previous/next chain. The page's own table of contents is
/// filled in by the rendering collaborator once it reads the source.
#[derive(Debug)]
pub struct Page {
    pub name: String,
    /// The html file to render to.
    pub output: String,
    /// The markdown input file.
    pub input: String,
    pub toc: PageToc,
    /// The link to the next page.
    pub next: Option<String>,
    /// The link to the previous page.
    pub prev: Option<String>,
    /// The page's parents, and their parents, and so on, ending with the
    /// page itself.
    pub heirachy: Vec<Link>,
}

/// A page as a mathematical value; the not-yet-read table of contents is
/// not part of it.
pub struct PageV {
    pub name: Seq<char>,
    pub output: Seq<char>,
    pub input: Seq<char>,
    pub next: Option<Seq<char>>,
    pub prev: Option<Seq<char>>,
    pub heirachy: Seq<LinkV>,
}

/// The breadcrumbs of a stack as mathematical values.
pub open spec fn crumbs_view(s: Seq<Link>) -> Seq<LinkV> {
    s.map_values(|l: Link| l@)
}

impl View for Page {
    type V = PageV;

    open spec fn view(&self) -> PageV {
        PageV {
            name: self.name@,
            output: self.output@,
            input: self.input@,
            next: match self.next {
                Some(u) => Some(u@),
                None => None,
            },
            prev: match self.prev {
                Some(u) => Some(u@),
                None => None,
            },
            heirachy: crumbs_view(self.heirachy@),
        }
    }
}

/// The pages of a sequence as mathematical values.
pub open spec fn pages_view(s: Seq<Page>) -> Seq<PageV> {
    s.map_values(|p: Page| p@)
}

/// The redirects of a sequence as mathematical values.
pub open spec fn redirs_view(s: Seq<(String, String)>) -> Seq<(Seq<char>, Seq<char>)> {
    s.map_values(|t: (String, String)| (t.0@, t.1@))
}

/// A path that cannot be related to the base or output directory as the
/// build expects: it does not lie under the directory.
#[derive(Debug)]
pub struct PathError {
    /// The offending path.
    pub path: String,
}

/// The file name a readme carries.
pub open spec fn readme_name() -> Seq<char> {
    seq!['R', 'E', 'A', 'D', 'M', 'E', '.', 'm', 'd']
}

/// The file name every rendered page gets.
pub open spec fn index_name() -> Seq<char> {
    seq!['i', 'n', 'd', 'e', 'x', '.', 'h', 't', 'm', 'l']
}

/// Where the page for `input` is rendered: the input's position under the
/// base directory carried over to the output directory, a readme becoming
/// the directory's index and any other file becoming an index inside a
/// directory of its own name; `None` when the input does not lie under the
/// base directory.
#[verifier::opaque]
pub open spec fn spec_output_loc(input: Seq<char>, out_dir: Seq<char>, base_dir: Seq<char>) -> Option<
    Seq<char>,
> {
    match spec_strip_prefix(input, base_dir) {
        Some(rel) => {
            let path = spec_join(out_dir, rel);
            if spec_file_name(path) == readme_name() {
                Some(spec_set_file_name(path, index_name()))
            } else {
                Some(spec_join(spec_drop_extension(path), index_name()))
            }
        },
        None => None,
    }
}

/// The URL a rendered output location is served under: its position under
/// the output directory joined onto the URL prefix, without the implicit
/// index file name; `None` when the output does not lie under the output
/// directory.
#[verifier::opaque]
pub open spec fn url_opt(output: Seq<char>, d: DirsV) -> Option<Seq<char>> {
    match spec_strip_prefix(output, d.out_dir) {
        Some(rel) => Some(spec_collapse(spec_pop(spec_join(d.base_url, rel)))),
        None => None,
    }
}

/// The URL of an output location that is known to lie under the output
/// directory.
pub open spec fn url_val(output: Seq<char>, d: DirsV) -> Seq<char> {
    match url_opt(output, d) {
        Some(u) => u,
        None => Seq::empty(),
    }
}

/// Computes the output location for one input path.
pub fn output_loc(input_loc: &str, out_dir: &str, base_dir: &str) -> (r: Result<String, PathError>)
    ensures
        match r {
            Ok(o) => spec_output_loc(input_loc@, out_dir@, base_dir@) == Some(o@),
            Err(_) => spec_output_loc(input_loc@, out_dir@, base_dir@) is None,
        },
{
    proof {
        reveal(spec_output_loc);
    }
    let rel = match strip_prefix(input_loc, base_dir) {
        Some(r) => r,
        None => {
            return Err(PathError { path: input_loc.to_owned() });
        },
    };
    let path = join(out_dir, rel.as_str());
    let fname = file_name(path.as_str());
    proof {
        reveal_strlit("README.md");
        reveal_strlit("index.html");
        assert("README.md"@ =~= readme_name());
        assert("index.html"@ =~= index_name());
    }
    if str_eq(fname.as_str(), "README.md") {
        Ok(set_file_name(path.as_str(), "index.html"))
    } else {
        let trimmed = drop_extension(path.as_str());
        Ok(join(trimmed.as_str(), "index.html"))
    }
}

impl Page {
    /// The URL this page is served under.
    pub fn url(&self, dirs: &Dirs) -> (r: Result<String, PathError>)
        ensures
            match r {
                Ok(u) => url_opt(self.output@, dirs@) == Some(u@),
                Err(_) => url_opt(self.output@, dirs@) is None,
            },
    {
        proof {
            reveal(url_opt);
        }
        let rel = match strip_prefix(self.output.as_str(), dirs.out_dir.as_str()) {
            Some(r) => r,
            None => {
                return Err(PathError { path: self.output.clone() });
            },
        };
        let joined = join(dirs.base_url.as_str(), rel.as_str());
        let popped = pop_segment(joined.as_str());
        Ok(collapse_dot_segments(popped.as_str()))
    }

    /// This page's own breadcrumb: its name and its URL.
    pub fn heirachy_element(&self, dirs: &Dirs) -> (r: Result<Link, PathError>)
        ensures
            match r {
                Ok(l) => url_opt(self.output@, dirs@) == Some(l@.link) && l@.prity == self.name@,
                Err(_) => url_opt(self.output@, dirs@) is None,
            },
    {
        let u = match self.url(dirs) {
            Ok(u) => u,
            Err(e) => {
                return Err(e);
            },
        };
        Ok(Link { prity: self.name.clone(), link: u })
    }
}

/// One step of the flattened table of contents: a chapter, or the opening
/// or closing of a nesting level.
pub enum PageListParts {
    Chapter(summary::Chapter),
    StartSection,
    EndSection,
}

/// A flattening step as a mathematical value.
pub enum Tok {
    Chap(summary::ChapterV),
    Open,
    Close,
}

/// The step of one flattening part.
pub open spec fn part_tok(p: PageListParts) -> Tok {
    match p {
        PageListParts::Chapter(c) => Tok::Chap(c@),
        PageListParts::StartSection => Tok::Open,
        PageListParts::EndSection => Tok::Close,
    }
}

/// The steps of a sequence of flattening parts.
pub open spec fn parts_view(s: Seq<PageListParts>) -> Seq<Tok> {
    s.map_values(|p: PageListParts| part_tok(p))
}

/// The steps of a sequence of un-numbered chapters: one chapter each.
pub open spec fn chap_toks(cs: Seq<summary::Chapter>) -> Seq<Tok> {
    cs.map_values(|c: summary::Chapter| Tok::Chap(c@))
}

/// The steps of one table-of-contents subtree, depth first: the chapter,
/// then, if it has nested entries, their steps between one open and one
/// close.
pub open spec fn link_toks(l: summary::Link) -> Seq<Tok>
    decreases l,
{
    seq![Tok::Chap(l.chapter@)] + if l.nested_items@.len() > 0 {
        seq![Tok::Open] + links_toks(l.nested_items@) + seq![Tok::Close]
    } else {
        Seq::empty()
    }
}

/// The steps of a forest of subtrees, in order.
pub open spec fn links_toks(ls: Seq<summary::Link>) -> Seq<Tok>
    decreases ls,
{
    if ls.len() == 0 {
        Seq::empty()
    } else {
        link_toks(ls[0]) + links_toks(ls.skip(1))
    }
}

/// The steps of a whole summary: the prefix chapters, the numbered tree in
/// document order, then the suffix chapters.
pub open spec fn summary_toks(s: summary::Summary) -> Seq<Tok> {
    chap_toks(s.prefix_chapters@) + links_toks(s.numbered_chapters@) + chap_toks(
        s.suffix_chapters@,
    )
}

proof fn lemma_parts_view_push(s: Seq<PageListParts>, p: PageListParts)
    ensures
        parts_view(s.push(p)) == parts_view(s) + seq![part_tok(p)],
{
    assert(parts_view(s.push(p)) =~= parts_view(s) + seq![part_tok(p)]);
}

proof fn lemma_chap_toks_snoc(cs: Seq<summary::Chapter>, c: summary::Chapter)
    ensures
        chap_toks(cs.push(c)) == chap_toks(cs) + seq![Tok::Chap(c@)],
{
    assert(chap_toks(cs.push(c)) =~= chap_toks(cs) + seq![Tok::Chap(c@)]);
}

proof fn lemma_links_toks_snoc(s: Seq<summary::Link>, l: summary::Link)
    ensures
        links_toks(s.push(l)) == links_toks(s) + link_toks(l),
    decreases s.len(),
{
    if s.len() == 0 {
        assert(s.push(l).skip(1) =~= Seq::<summary::Link>::empty());
        assert(s.push(l)[0] == l);
        assert(links_toks(Seq::<summary::Link>::empty()) == Seq::<Tok>::empty());
        assert(links_toks(s) == Seq::<Tok>::empty());
        assert(links_toks(s.push(l)) =~= links_toks(s) + link_toks(l));
    } else {
        assert(s.push(l).skip(1) =~= s.skip(1).push(l));
        lemma_links_toks_snoc(s.skip(1), l);
        assert(s.push(l)[0] == s[0]);
        assert(links_toks(s.push(l)) =~= links_toks(s) + link_toks(l));
    }
}

/// The walk over the flattening steps: a chapter with a location becomes a
/// page whose breadcrumbs are the stack plus its own entry; a draft chapter
/// contributes nothing; an open pushes the breadcrumb of the page just
/// appended (or, when no page was appended yet, repeats the enclosing
/// crumb); a close pops. `None` marks a path that could not be related to
/// its directory.
pub open spec fn walk(toks: Seq<Tok>, stack: Seq<LinkV>, acc: Seq<PageV>, d: DirsV) -> Option<
    Seq<PageV>,
>
    decreases toks.len(),
{
    if toks.len() == 0 {
        Some(acc)
    } else {
        match toks[0] {
            Tok::Chap(c) => match c.location {
                None => walk(toks.skip(1), stack, acc, d),
                Some(input) => match spec_output_loc(input, d.out_dir, d.base_dir) {
                    None => None,
                    Some(output) => match url_opt(output, d) {
                        None => None,
                        Some(u) => {
                            let page = PageV {
                                name: c.name,
                                input: input,
                                output: output,
                                heirachy: stack.push(LinkV { prity: c.name, link: u }),
                                next: None,
                                prev: None,
                            };
                            walk(toks.skip(1), stack, acc.push(page), d)
                        },
                    },
                },
            },
            Tok::Open => {
                if acc.len() > 0 {
                    match url_opt(acc.last().output, d) {
                        None => None,
                        Some(u) => walk(
                            toks.skip(1),
                            stack.push(LinkV { prity: acc.last().name, link: u }),
                            acc,
                            d,
                        ),
                    }
                } else {
                    let repeated = if stack.len() > 0 {
                        stack.last()
                    } else {
                        LinkV { prity: Seq::empty(), link: Seq::empty() }
                    };
                    walk(toks.skip(1), stack.push(repeated), acc, d)
                }
            },
            Tok::Close => walk(
                toks.skip(1),
                if stack.len() > 0 {
                    stack.drop_last()
                } else {
                    stack
                },
                acc,
                d,
            ),
        }
    }
}

/// The pages with the previous/next chain filled in: each page links to its
/// neighbours' URLs; the first has no previous and the last no next.
pub open spec fn link_nav(pages: Seq<PageV>, d: DirsV) -> Seq<PageV> {
    Seq::new(
        pages.len(),
        |i: int|
            PageV {
                next: if i + 1 < pages.len() {
                    Some(url_val(pages[i + 1].output, d))
                } else {
                    pages[i].next
                },
                prev: if i >= 1 {
                    Some(url_val(pages[i - 1].output, d))
                } else {
                    pages[i].prev
                },
                ..pages[i]
            },
    )
}

/// No two pages render to the same output location.
pub open spec fn outputs_distinct(pages: Seq<PageV>) -> bool {
    forall|i: int, j: int|
        0 <= i < j < pages.len() ==> (#[trigger] pages[i]).output != (#[trigger] pages[j]).output
}

/// The book's root breadcrumb: its title linking to its directory's URL.
pub open spec fn root_crumb(book: config::Book, d: DirsV) -> Option<LinkV> {
    match spec_strip_prefix(book.location@, d.base_dir) {
        Some(rel) => Some(LinkV { prity: book.summary.title@, link: spec_join(d.base_url, rel) }),
        None => None,
    }
}

/// Everything the builder produces for one book: the flattened, linked page
/// sequence and the root redirect. Every page must render to its own output
/// location — two chapters that map to one output are refused. The redirect
/// stands only when no page renders to the location a root readme would,
/// and at least one page was emitted; it forwards that location to the
/// first page. `None` marks a book whose paths could not be related to the
/// configured directories, or whose outputs collide.
pub open spec fn spec_book_build(book: config::Book, d: DirsV) -> Option<
    (Seq<PageV>, Seq<(Seq<char>, Seq<char>)>),
> {
    match root_crumb(book, d) {
        None => None,
        Some(root) => match spec_output_loc(
            spec_join(book.location@, readme_name()),
            d.out_dir,
            d.base_dir,
        ) {
            None => None,
            Some(redir_out) => match walk(
                summary_toks(book.summary),
                seq![root],
                Seq::empty(),
                d,
            ) {
                None => None,
                Some(cores) => if !outputs_distinct(cores) {
                    None
                } else {
                    let pages = link_nav(cores, d);
                    let redirects: Seq<(Seq<char>, Seq<char>)> = if cores.len() == 0 || (exists|i: int|
                        0 <= i < cores.len() && cores[i].output == redir_out) {
                        Seq::empty()
                    } else {
                        seq![(redir_out, url_val(cores[0].output, d))]
                    };
                    Some((pages, redirects))
                },
            },
        },
    }
}

/// The token is a chapter step carrying exactly this located chapter.
pub open spec fn chap_source(t: Tok, input: Seq<char>, name: Seq<char>) -> bool {
    t matches Tok::Chap(c) && c.location == Some(input) && c.name == name
}

/// In any walk result, the pages added beyond the accumulator all stem from
/// a chapter step that carries a location: the page's name and input are
/// that chapter's, nothing else ever becomes a page, and the fresh pages
/// carry no navigation links yet.
proof fn lemma_walk_sources(toks: Seq<Tok>, stack: Seq<LinkV>, acc: Seq<PageV>, d: DirsV)
    requires
        walk(toks, stack, acc, d) is Some,
    ensures
        ({
            let res = walk(toks, stack, acc, d)->Some_0;
            &&& res.len() >= acc.len()
            &&& forall|i: int| 0 <= i < acc.len() ==> res[i] == acc[i]
            &&& forall|i: int|
                acc.len() <= i < res.len() ==> (exists|k: int|
                    0 <= k < toks.len() && chap_source(
                        #[trigger] toks[k],
                        res[i].input,
                        res[i].name,
                    )) && (#[trigger] res[i]).prev is None && res[i].next is None
        }),
    decreases toks.len(),
{
    let res = walk(toks, stack, acc, d)->Some_0;
    if toks.len() == 0 {
    } else {
        let rest = toks.skip(1);
        assert(forall|k: int| 0 <= k < rest.len() ==> rest[k] == toks[k + 1]);
        match toks[0] {
            Tok::Chap(c) => {
                match c.location {
                    None => {
                        lemma_walk_sources(rest, stack, acc, d);
                    },
                    Some(input) => {
                        let output = spec_output_loc(input, d.out_dir, d.base_dir)->Some_0;
                        let u = url_opt(output, d)->Some_0;
                        let page = PageV {
                            name: c.name,
                            input: input,
                            output: output,
                            heirachy: stack.push(LinkV { prity: c.name, link: u }),
                            next: None,
                            prev: None,
                        };
                        lemma_walk_sources(rest, stack, acc.push(page), d);
                        assert forall|i: int|
                            acc.len() <= i < res.len() implies (exists|k: int|
                            0 <= k < toks.len() && chap_source(
                                #[trigger] toks[k],
                                res[i].input,
                                res[i].name,
                            )) && (#[trigger] res[i]).prev is None && res[i].next is None by {
                            if i == acc.len() {
                                assert(res[i] == page);
                                assert(chap_source(toks[0], res[i].input, res[i].name));
                            } else {
                                let k = choose|k: int|
                                    0 <= k < rest.len() && chap_source(
                                        #[trigger] rest[k],
                                        res[i].input,
                                        res[i].name,
                                    );
                                assert(toks[k + 1] == rest[k]);
                            }
                        }
                    },
                }
            },
            Tok::Open => {
                if acc.len() > 0 {
                    lemma_walk_sources(
                        rest,
                        stack.push(
                            LinkV {
                                prity: acc.last().name,
                                link: url_opt(acc.last().output, d)->Some_0,
                            },
                        ),
                        acc,
                        d,
                    );
                } else {
                    let repeated = if stack.len() > 0 {
                        stack.last()
                    } else {
                        LinkV { prity: Seq::empty(), link: Seq::empty() }
                    };
                    lemma_walk_sources(rest, stack.push(repeated), acc, d);
                }
                assert forall|i: int|
                    acc.len() <= i < res.len() implies (exists|k: int|
                    0 <= k < toks.len() && chap_source(
                        #[trigger] toks[k],
                        res[i].input,
                        res[i].name,
                    )) && (#[trigger] res[i]).prev is None && res[i].next is None by {
                    let k = choose|k: int|
                        0 <= k < rest.len() && chap_source(
                            #[trigger] rest[k],
                            res[i].input,
                            res[i].name,
                        );
                    assert(toks[k + 1] == rest[k]);
                }
            },
            Tok::Close => {
                lemma_walk_sources(
                    rest,
                    if stack.len() > 0 {
                        stack.drop_last()
                    } else {
                        stack
                    },
                    acc,
                    d,
                );
                assert forall|i: int|
                    acc.len() <= i < res.len() implies (exists|k: int|
                    0 <= k < toks.len() && chap_source(
                        #[trigger] toks[k],
                        res[i].input,
                        res[i].name,
                    )) && (#[trigger] res[i]).prev is None && res[i].next is None by {
                    let k = choose|k: int|
                        0 <= k < rest.len() && chap_source(
                            #[trigger] rest[k],
                            res[i].input,
                            res[i].name,
                        );
                    assert(toks[k + 1] == rest[k]);
                }
            },
        }
    }
}

/// A draft chapter never appears in the flattened page sequence: every page
/// a build produces stems from a chapter step of the summary that carries a
/// location, whose name and input location the page keeps.
pub proof fn lemma_no_draft_pages(book: config::Book, d: DirsV)
    requires
        spec_book_build(book, d) is Some,
    ensures
        ({
            let pages = spec_book_build(book, d)->Some_0.0;
            forall|i: int|
                0 <= i < pages.len() ==> exists|k: int|
                    0 <= k < summary_toks(book.summary).len() && chap_source(
                        #[trigger] summary_toks(book.summary)[k],
                        (#[trigger] pages[i]).input,
                        pages[i].name,
                    )
        }),
{
    let toks = summary_toks(book.summary);
    let root = root_crumb(book, d)->Some_0;
    let cores = walk(toks, seq![root], Seq::empty(), d)->Some_0;
    lemma_walk_sources(toks, seq![root], Seq::empty(), d);
    let pages = spec_book_build(book, d)->Some_0.0;
    assert(pages == link_nav(cores, d));
    assert forall|i: int| 0 <= i < pages.len() implies exists|k: int|
        0 <= k < toks.len() && chap_source(
            #[trigger] toks[k],
            (#[trigger] pages[i]).input,
            pages[i].name,
        ) by {
        assert(pages[i].input == cores[i].input && pages[i].name == cores[i].name);
        let k = choose|k: int|
            0 <= k < toks.len() && chap_source(#[trigger] toks[k], cores[i].input, cores[i].name);
        assert(chap_source(toks[k], pages[i].input, pages[i].name));
    }
}

/// A book whose chapters are all drafts — no chapter step of its flattened
/// summary names a location — builds to an empty page sequence and an empty
/// redirect list; nothing looks a first page up.
pub proof fn lemma_all_drafts_no_pages(book: config::Book, d: DirsV)
    requires
        spec_book_build(book, d) is Some,
        forall|k: int|
            0 <= k < summary_toks(book.summary).len() ==> match #[trigger] summary_toks(
                book.summary,
            )[k] {
                Tok::Chap(c) => c.location is None,
                _ => true,
            },
    ensures
        spec_book_build(book, d)->Some_0.0.len() == 0,
        spec_book_build(book, d)->Some_0.1.len() == 0,
{
    let toks = summary_toks(book.summary);
    let root = root_crumb(book, d)->Some_0;
    let cores = walk(toks, seq![root], Seq::empty(), d)->Some_0;
    lemma_walk_sources(toks, seq![root], Seq::empty(), d);
    if cores.len() > 0 {
        let k = choose|k: int|
            0 <= k < toks.len() && chap_source(#[trigger] toks[k], cores[0].input, cores[0].name);
        assert(match toks[k] {
            Tok::Chap(c) => c.location is None,
            _ => true,
        });
        assert(false);
    }
    assert(spec_book_build(book, d)->Some_0.0 == link_nav(cores, d));
}

/// The previous/next relation of a build's pages is one linear chain in
/// document order: the first page has no previous and the last no next, and
/// each page links to the URLs of its immediate neighbours.
pub proof fn lemma_page_chain(book: config::Book, d: DirsV)
    requires
        spec_book_build(book, d) is Some,
    ensures
        ({
            let pages = spec_book_build(book, d)->Some_0.0;
            &&& pages.len() > 0 ==> pages[0].prev is None && pages[pages.len() - 1].next is None
            &&& forall|i: int|
                0 <= i < pages.len() - 1 ==> (#[trigger] pages[i]).next == Some(
                    url_val(pages[i + 1].output, d),
                ) && pages[i + 1].prev == Some(url_val(pages[i].output, d))
        }),
{
    let toks = summary_toks(book.summary);
    let root = root_crumb(book, d)->Some_0;
    let cores = walk(toks, seq![root], Seq::empty(), d)->Some_0;
    lemma_walk_sources(toks, seq![root], Seq::empty(), d);
    let pages = spec_book_build(book, d)->Some_0.0;
    assert(pages == link_nav(cores, d));
    assert(forall|i: int| 0 <= i < cores.len() ==> (#[trigger] cores[i]).prev is None);
    assert(forall|i: int| 0 <= i < cores.len() ==> (#[trigger] cores[i]).next is None);
    assert forall|i: int|
        0 <= i < pages.len() - 1 implies (#[trigger] pages[i]).next == Some(
        url_val(pages[i + 1].output, d),
    ) && pages[i + 1].prev == Some(url_val(pages[i].output, d)) by {
        assert(pages[i + 1].output == cores[i + 1].output);
        assert(pages[i].output == cores[i].output);
    }
}

/// A copy of a breadcrumb stack.
fn clone_crumbs(v: &Vec<Link>) -> (r: Vec<Link>)
    ensures
        crumbs_view(r@) == crumbs_view(v@),
{
    let mut r: Vec<Link> = Vec::new();
    let n = v.len();
    let mut i: usize = 0;
    while i < n
        invariant
            i <= n,
            n == v@.len(),
            r@.len() == i,
            forall|j: int| 0 <= j < i ==> r@[j]@ == v@[j]@,
        decreases n - i,
    {
        r.push(v[i].clone());
        i = i + 1;
    }
    proof {
        assert(crumbs_view(r@) =~= crumbs_view(v@));
    }
    r
}

/// One book's flattened pages and its redirect, as the builder produces
/// them.
#[derive(Debug)]
pub struct Book {
    pub title: String,
    pub pages: Vec<Page>,
    /// Pairs of an output location and the URL it forwards to.
    pub redirects: Vec<(String, String)>,
}

impl Default for Book {
    /// A book with no pages.
    fn default() -> (r: Self)
        ensures
            r.title@ == Seq::<char>::empty(),
            r.pages@.len() == 0,
            r.redirects@.len() == 0,
    {
        Book { title: String::new(), pages: Vec::new(), redirects: Vec::new() }
    }
}

/// The content of every configured book, in configuration order.
#[derive(Debug)]
pub struct Content(pub Vec<Book>);

impl Book {
    /// Flattens the summary tree into explicit steps: the prefix chapters,
    /// the numbered tree depth first with open/close marks at each nesting
    /// boundary, then the suffix chapters.
    pub fn capture_raw_parts(link: &summary::Link, out: &mut Vec<PageListParts>)
        ensures
            parts_view(final(out)@) == parts_view(old(out)@) + link_toks(*link),
        decreases *link,
    {
        let ghost pre = out@;
        let part = PageListParts::Chapter(link.chapter.clone());
        proof {
            assert(part_tok(part) == Tok::Chap(link.chapter@));
        }
        let ghost p0 = part;
        out.push(part);
        proof {
            lemma_parts_view_push(pre, p0);
            assert(parts_view(out@) =~= parts_view(pre) + seq![Tok::Chap(link.chapter@)]);
        }
        if link.nested_items.len() > 0 {
            let ghost pre_open = out@;
            out.push(PageListParts::StartSection);
            proof {
                lemma_parts_view_push(pre_open, PageListParts::StartSection);
                assert(parts_view(out@) =~= parts_view(pre) + seq![Tok::Chap(link.chapter@)]
                    + seq![Tok::Open]);
            }
            let n = link.nested_items.len();
            let mut i: usize = 0;
            while i < n
                invariant
                    i <= n,
                    n == link.nested_items@.len(),
                    parts_view(out@) == parts_view(pre) + seq![Tok::Chap(link.chapter@)] + seq![
                        Tok::Open,
                    ] + links_toks(link.nested_items@.take(i as int)),
                decreases n - i,
            {
                proof {
                    assert(decreases_to!(*link => link.nested_items@[i as int]));
                }
                Self::capture_raw_parts(&link.nested_items[i], out);
                proof {
                    assert(link.nested_items@.take(i + 1) =~= link.nested_items@.take(
                        i as int,
                    ).push(link.nested_items@[i as int]));
                    lemma_links_toks_snoc(
                        link.nested_items@.take(i as int),
                        link.nested_items@[i as int],
                    );
                    assert(parts_view(out@) =~= parts_view(pre) + seq![Tok::Chap(link.chapter@)]
                        + seq![Tok::Open] + links_toks(link.nested_items@.take(i + 1)));
                }
                i = i + 1;
            }
            let ghost pre_close = out@;
            out.push(PageListParts::EndSection);
            proof {
                lemma_parts_view_push(pre_close, PageListParts::EndSection);
                assert(link.nested_items@.take(n as int) =~= link.nested_items@);
                assert(parts_view(out@) =~= parts_view(pre) + link_toks(*link));
            }
        } else {
            proof {
                assert(parts_view(out@) =~= parts_view(pre) + link_toks(*link));
            }
        }
    }

    /// Walks the flattened summary and produces the ordered pages with
    /// breadcrumbs and the previous/next chain, plus the root redirect when
    /// no page renders to the location a root readme would. Two chapters
    /// whose sources render to one output location are an error: every
    /// emitted page has a unique output.
    #[verifier::rlimit(100)]
    pub fn capture_pages(book: &config::Book, dirs: &Dirs) -> (r: Result<
        (Vec<Page>, Vec<(String, String)>),
        PathError,
    >)
        ensures
            match r {
                Ok(pr) => ({
                    &&& spec_book_build(*book, dirs@) == Some(
                        (pages_view(pr.0@), redirs_view(pr.1@)),
                    )
                    &&& outputs_distinct(pages_view(pr.0@))
                    &&& forall|i: int|
                        0 <= i < pr.0@.len() ==> (#[trigger] pr.0@[i]).toc.0@.len() == 0
                }),
                Err(_) => spec_book_build(*book, dirs@) is None,
            },
    {
        let ghost d = dirs@;
        // Flatten the summary tree into a linear step sequence.
        let mut pages_parts: Vec<PageListParts> = Vec::new();
        let npre = book.summary.prefix_chapters.len();
        let mut i: usize = 0;
        while i < npre
            invariant
                i <= npre,
                npre == book.summary.prefix_chapters@.len(),
                parts_view(pages_parts@) == chap_toks(book.summary.prefix_chapters@.take(i as int)),
            decreases npre - i,
        {
            let ghost pp = pages_parts@;
            let part = PageListParts::Chapter(book.summary.prefix_chapters[i].clone());
            let ghost p0 = part;
            pages_parts.push(part);
            proof {
                lemma_parts_view_push(pp, p0);
                assert(part_tok(p0) == Tok::Chap(book.summary.prefix_chapters@[i as int]@));
                assert(book.summary.prefix_chapters@.take(i + 1)
                    =~= book.summary.prefix_chapters@.take(i as int).push(
                    book.summary.prefix_chapters@[i as int],
                ));
                lemma_chap_toks_snoc(
                    book.summary.prefix_chapters@.take(i as int),
                    book.summary.prefix_chapters@[i as int],
                );
                assert(parts_view(pages_parts@) =~= chap_toks(
                    book.summary.prefix_chapters@.take(i + 1),
                ));
            }
            i = i + 1;
        }
        proof {
            assert(book.summary.prefix_chapters@.take(npre as int)
                =~= book.summary.prefix_chapters@);
        }
        let nnum = book.summary.numbered_chapters.len();
        let mut i: usize = 0;
        while i < nnum
            invariant
                i <= nnum,
                nnum == book.summary.numbered_chapters@.len(),
                parts_view(pages_parts@) == chap_toks(book.summary.prefix_chapters@) + links_toks(
                    book.summary.numbered_chapters@.take(i as int),
                ),
            decreases nnum - i,
        {
            Self::capture_raw_parts(&book.summary.numbered_chapters[i], &mut pages_parts);
            proof {
                assert(book.summary.numbered_chapters@.take(i + 1)
                    =~= book.summary.numbered_chapters@.take(i as int).push(
                    book.summary.numbered_chapters@[i as int],
                ));
                lemma_links_toks_snoc(
                    book.summary.numbered_chapters@.take(i as int),
                    book.summary.numbered_chapters@[i as int],
                );
                assert(parts_view(pages_parts@) =~= chap_toks(book.summary.prefix_chapters@)
                    + links_toks(book.summary.numbered_chapters@.take(i + 1)));
            }
            i = i + 1;
        }
        proof {
            assert(book.summary.numbered_chapters@.take(nnum as int)
                =~= book.summary.numbered_chapters@);
        }
        let nsuf = book.summary.suffix_chapters.len();
        let mut i: usize = 0;
        while i < nsuf
            invariant
                i <= nsuf,
                nsuf == book.summary.suffix_chapters@.len(),
                parts_view(pages_parts@) == chap_toks(book.summary.prefix_chapters@) + links_toks(
                    book.summary.numbered_chapters@,
                ) + chap_toks(book.summary.suffix_chapters@.take(i as int)),
            decreases nsuf - i,
        {
            let ghost pp = pages_parts@;
            let part = PageListParts::Chapter(book.summary.suffix_chapters[i].clone());
            let ghost p0 = part;
            pages_parts.push(part);
            proof {
                lemma_parts_view_push(pp, p0);
                assert(part_tok(p0) == Tok::Chap(book.summary.suffix_chapters@[i as int]@));
                assert(book.summary.suffix_chapters@.take(i + 1)
                    =~= book.summary.suffix_chapters@.take(i as int).push(
                    book.summary.suffix_chapters@[i as int],
                ));
                lemma_chap_toks_snoc(
                    book.summary.suffix_chapters@.take(i as int),
                    book.summary.suffix_chapters@[i as int],
                );
                assert(parts_view(pages_parts@) =~= chap_toks(book.summary.prefix_chapters@)
                    + links_toks(book.summary.numbered_chapters@) + chap_toks(
                    book.summary.suffix_chapters@.take(i + 1),
                ));
            }
            i = i + 1;
        }
        let ghost toks = summary_toks(book.summary);
        proof {
            assert(book.summary.suffix_chapters@.take(nsuf as int)
                =~= book.summary.suffix_chapters@);
            assert(parts_view(pages_parts@) =~= toks);
        }
        // Seed the breadcrumb stack with the book's own title and root URL.
        let rel0 = match strip_prefix(book.location.as_str(), dirs.base_dir.as_str()) {
            Some(r) => r,
            None => {
                return Err(PathError { path: book.location.clone() });
            },
        };
        let root_link = Link {
            prity: book.summary.title.clone(),
            link: join(dirs.base_url.as_str(), rel0.as_str()),
        };
        let ghost rootv = root_link@;
        let mut heirachy: Vec<Link> = Vec::new();
        heirachy.push(root_link);
        // The output location a readme at the book's root would produce.
        proof {
            reveal_strlit("README.md");
            assert("README.md"@ =~= readme_name());
        }
        let readme_path = join(book.location.as_str(), "README.md");
        let redir_to_index_out = match output_loc(
            readme_path.as_str(),
            dirs.out_dir.as_str(),
            dirs.base_dir.as_str(),
        ) {
            Ok(p) => p,
            Err(e) => {
                return Err(e);
            },
        };
        let mut needs_redir = true;
        // Walk the steps.
        let mut out: Vec<Page> = Vec::new();
        let nparts = pages_parts.len();
        let mut k: usize = 0;
        proof {
            assert(toks.skip(0) =~= toks);
            assert(crumbs_view(heirachy@) =~= seq![rootv]);
            assert(pages_view(out@) =~= Seq::<PageV>::empty());
        }
        while k < nparts
            invariant
                k <= nparts,
                nparts == pages_parts@.len(),
                parts_view(pages_parts@) == toks,
                toks.len() == nparts,
                redir_to_index_out@ == spec_output_loc(
                    spec_join(book.location@, readme_name()),
                    d.out_dir,
                    d.base_dir,
                )->Some_0,
                spec_output_loc(
                    spec_join(book.location@, readme_name()),
                    d.out_dir,
                    d.base_dir,
                ) is Some,
                d == dirs@,
                toks == summary_toks(book.summary),
                root_crumb(*book, d) == Some(rootv),
                walk(toks, seq![rootv], Seq::empty(), d) == walk(
                    toks.skip(k as int),
                    crumbs_view(heirachy@),
                    pages_view(out@),
                    d,
                ),
                forall|i: int|
                    0 <= i < out@.len() ==> url_opt((#[trigger] out@[i])@.output, d) is Some,
                forall|i: int| 0 <= i < out@.len() ==> (#[trigger] out@[i]).toc.0@.len() == 0,
                forall|i: int, j: int|
                    0 <= i < j < out@.len() ==> (#[trigger] out@[i])@.output != (
                    #[trigger] out@[j])@.output,
                needs_redir ==> (forall|i: int|
                    0 <= i < out@.len() ==> (#[trigger] out@[i])@.output != redir_to_index_out@),
                !needs_redir ==> (exists|i: int|
                    0 <= i < out@.len() && (#[trigger] out@[i])@.output == redir_to_index_out@),
            decreases nparts - k,
        {
            let ghost stack_pre = crumbs_view(heirachy@);
            let ghost acc_pre = pages_view(out@);
            proof {
                assert(toks.skip(k as int)[0] == toks[k as int]);
                assert(toks.skip(k as int).skip(1) =~= toks.skip(k + 1));
                assert(toks[k as int] == part_tok(pages_parts@[k as int]));
            }
            match &pages_parts[k] {
                PageListParts::Chapter(chap) => {
                    match &chap.location {
                        None => {
                            // a draft: it contributes nothing to the output
                        },
                        Some(l) => {
                            let input = l.clone();
                            let name = chap.name.clone();
                            let output = match output_loc(
                                input.as_str(),
                                dirs.out_dir.as_str(),
                                dirs.base_dir.as_str(),
                            ) {
                                Ok(o) => o,
                                Err(e) => {
                                    proof {
                                        assert(walk(
                                            toks.skip(k as int),
                                            stack_pre,
                                            acc_pre,
                                            d,
                                        ) is None);
                                    }
                                    return Err(e);
                                },
                            };
                            let mut dup = false;
                            let mut di: usize = 0;
                            while di < out.len()
                                invariant
                                    di <= out@.len(),
                                    dup <==> (exists|q: int|
                                        0 <= q < di && (#[trigger] out@[q])@.output == output@),
                                decreases out@.len() - di,
                            {
                                if out[di].output.eq(&output) {
                                    dup = true;
                                }
                                di = di + 1;
                            }
                            if dup {
                                proof {
                                    match url_opt(output@, d) {
                                        None => {},
                                        Some(u) => {
                                            let cv = match toks[k as int] {
                                                Tok::Chap(c) => c,
                                                _ => arbitrary(),
                                            };
                                            let pv2 = PageV {
                                                name: cv.name,
                                                input: cv.location->Some_0,
                                                output: output@,
                                                heirachy: stack_pre.push(
                                                    LinkV { prity: cv.name, link: u },
                                                ),
                                                next: None,
                                                prev: None,
                                            };
                                            assert(walk(toks.skip(k as int), stack_pre, acc_pre, d)
                                                == walk(
                                                toks.skip(k + 1),
                                                stack_pre,
                                                acc_pre.push(pv2),
                                                d,
                                            ));
                                            if walk(
                                                toks.skip(k + 1),
                                                stack_pre,
                                                acc_pre.push(pv2),
                                                d,
                                            ) is Some {
                                                lemma_walk_sources(
                                                    toks.skip(k + 1),
                                                    stack_pre,
                                                    acc_pre.push(pv2),
                                                    d,
                                                );
                                                let cores2 = walk(
                                                    toks.skip(k + 1),
                                                    stack_pre,
                                                    acc_pre.push(pv2),
                                                    d,
                                                )->Some_0;
                                                let q = choose|q: int|
                                                    0 <= q < out@.len() && (#[trigger] out@[q])@.output
                                                        == output@;
                                                assert(cores2[q] == acc_pre[q]);
                                                assert(cores2[acc_pre.len() as int] == pv2);
                                                assert(!outputs_distinct(cores2));
                                            }
                                        },
                                    }
                                }
                                return Err(PathError { path: output });
                            }
                            if output.eq(&redir_to_index_out) {
                                needs_redir = false;
                            }
                            let mut page = Page {
                                input,
                                name,
                                output,
                                toc: PageToc::default(),
                                prev: None,
                                next: None,
                                heirachy: clone_crumbs(&heirachy),
                            };
                            let elem = match page.heirachy_element(dirs) {
                                Ok(e) => e,
                                Err(e) => {
                                    proof {
                                        assert(walk(
                                            toks.skip(k as int),
                                            stack_pre,
                                            acc_pre,
                                            d,
                                        ) is None);
                                    }
                                    return Err(e);
                                },
                            };
                            page.heirachy.push(elem);
                            let ghost pv = page@;
                            let ghost was_needed = needs_redir;
                            let ghost pre_out = out@;
                            out.push(page);
                            proof {
                                assert(crumbs_view(page.heirachy@) =~= stack_pre.push(elem@));
                                assert(pages_view(out@) =~= acc_pre.push(pv));
                                let m = out@.len() - 1;
                                assert(out@[m]@ == pv);
                                if pv.output == redir_to_index_out@ {
                                    assert(out@[m]@.output == redir_to_index_out@);
                                } else if was_needed {
                                    assert forall|i: int|
                                        0 <= i < out@.len() implies (#[trigger] out@[i])@.output
                                        != redir_to_index_out@ by {
                                        if i < m {
                                            assert(out@[i] == pre_out[i]);
                                        } else {
                                            assert(out@[i]@ == pv);
                                        }
                                    }
                                } else {
                                    let w = choose|i: int|
                                        0 <= i < pre_out.len() && (#[trigger] pre_out[i])@.output
                                            == redir_to_index_out@;
                                    assert(out@[w]@.output == redir_to_index_out@);
                                }
                            }
                        },
                    }
                },
                PageListParts::StartSection => {
                    if out.len() > 0 {
                        let elem = match out[out.len() - 1].heirachy_element(dirs) {
                            Ok(e) => e,
                            Err(e) => {
                                proof {
                                    assert(false);
                                }
                                return Err(e);
                            },
                        };
                        heirachy.push(elem);
                        proof {
                            assert(acc_pre.last() == out@[out@.len() - 1]@);
                            assert(crumbs_view(heirachy@) =~= stack_pre.push(elem@));
                        }
                    } else {
                        if heirachy.len() > 0 {
                            let c = heirachy[heirachy.len() - 1].clone();
                            heirachy.push(c);
                            proof {
                                assert(stack_pre.last() == heirachy@[heirachy@.len() - 2]@);
                                assert(crumbs_view(heirachy@) =~= stack_pre.push(
                                    stack_pre.last(),
                                ));
                            }
                        } else {
                            heirachy.push(Link { prity: String::new(), link: String::new() });
                            proof {
                                assert(crumbs_view(heirachy@) =~= stack_pre.push(
                                    LinkV {
                                        prity: Seq::<char>::empty(),
                                        link: Seq::<char>::empty(),
                                    },
                                ));
                            }
                        }
                    }
                },
                PageListParts::EndSection => {
                    if heirachy.len() > 0 {
                        let _ = heirachy.pop();
                        proof {
                            assert(crumbs_view(heirachy@) =~= stack_pre.drop_last());
                        }
                    }
                },
            }
            k = k + 1;
            proof {
                assert(walk(toks, seq![rootv], Seq::empty(), d) == walk(
                    toks.skip(k as int),
                    crumbs_view(heirachy@),
                    pages_view(out@),
                    d,
                ));
            }
        }
        let ghost cores = pages_view(out@);
        proof {
            assert(toks.skip(nparts as int) =~= Seq::<Tok>::empty());
            assert(walk(toks, seq![rootv], Seq::empty(), d) == Some(cores));
            assert forall|i: int, j: int|
                0 <= i < j < cores.len() implies (#[trigger] cores[i]).output != (
            #[trigger] cores[j]).output by {
                assert(cores[i] == out@[i]@);
                assert(cores[j] == out@[j]@);
            }
            assert(outputs_distinct(cores));
            if !needs_redir {
                let w = choose|i: int|
                    0 <= i < out@.len() && (#[trigger] out@[i])@.output == redir_to_index_out@;
                assert(cores[w].output == redir_to_index_out@);
                assert(exists|i: int|
                    0 <= i < cores.len() && cores[i].output == redir_to_index_out@);
            } else {
                assert forall|i: int|
                    0 <= i < cores.len() implies cores[i].output != redir_to_index_out@ by {
                    assert(cores[i] == out@[i]@);
                }
            }
        }
        // Link adjacent pages into the previous/next chain.
        let n = out.len();
        let mut urls: Vec<String> = Vec::new();
        let mut i: usize = 0;
        while i < n
            invariant
                i <= n,
                n == out@.len(),
                cores == pages_view(out@),
                d == dirs@,
                forall|j: int|
                    0 <= j < out@.len() ==> url_opt((#[trigger] out@[j])@.output, d) is Some,
                urls@.len() == i,
                forall|j: int| 0 <= j < i ==> (#[trigger] urls@[j])@ == url_val(cores[j].output, d),
            decreases n - i,
        {
            let u = match out[i].url(dirs) {
                Ok(u) => u,
                Err(e) => {
                    proof {
                        assert(false);
                    }
                    return Err(e);
                },
            };
            urls.push(u);
            i = i + 1;
        }
        let mut i: usize = 0;
        while i < n
            invariant
                i <= n,
                n == out@.len(),
                n == cores.len(),
                d == dirs@,
                urls@.len() == n,
                forall|j: int| 0 <= j < n ==> (#[trigger] urls@[j])@ == url_val(cores[j].output, d),
                forall|j: int| 0 <= j < i ==> (#[trigger] out@[j])@ == link_nav(cores, d)[j],
                forall|j: int| i <= j < n ==> (#[trigger] out@[j])@ == cores[j],
                forall|j: int| 0 <= j < out@.len() ==> (#[trigger] out@[j]).toc.0@.len() == 0,
            decreases n - i,
        {
            let mut p = out.remove(i);
            if i + 1 < n {
                p.next = Some(urls[i + 1].clone());
            }
            if i > 0 {
                p.prev = Some(urls[i - 1].clone());
            }
            let ghost pv = p@;
            out.insert(i, p);
            proof {
                assert(out@[i as int]@ == pv);
                assert(pv =~= link_nav(cores, d)[i as int]);
            }
            i = i + 1;
        }
        // The root redirect, when the book has no root readme of its own.
        let mut redirs: Vec<(String, String)> = Vec::new();
        if needs_redir {
            if n > 0 {
                let u0 = urls[0].clone();
                redirs.push((redir_to_index_out, u0));
            }
        }
        proof {
            assert(pages_view(out@) =~= link_nav(cores, d));
            assert forall|i: int, j: int|
                0 <= i < j < link_nav(cores, d).len() implies (#[trigger] link_nav(
                cores,
                d,
            )[i]).output != (#[trigger] link_nav(cores, d)[j]).output by {
                assert(link_nav(cores, d)[i].output == cores[i].output);
                assert(link_nav(cores, d)[j].output == cores[j].output);
            }
            assert(outputs_distinct(link_nav(cores, d)));
            if needs_redir && n > 0 {
                assert(redirs_view(redirs@) =~= seq![
                    (redir_to_index_out@, url_val(cores[0].output, d)),
                ]);
            } else {
                assert(redirs_view(redirs@) =~= Seq::<(Seq<char>, Seq<char>)>::empty());
            }
        }
        Ok((out, redirs))
    }

    /// Builds one book: its title and its flattened, linked pages.
    pub fn new(book: &config::Book, dirs: &Dirs) -> (r: Result<Book, PathError>)
        ensures
            match r {
                Ok(b) => ({
                    &&& b.title@ == book.summary.title@
                    &&& spec_book_build(*book, dirs@) == Some(
                        (pages_view(b.pages@), redirs_view(b.redirects@)),
                    )
                }),
                Err(_) => spec_book_build(*book, dirs@) is None,
            },
    {
        let title = book.summary.title.clone();
        match Self::capture_pages(book, dirs) {
            Ok((pages, redirects)) => Ok(Book { title, pages, redirects }),
            Err(e) => Err(e),
        }
    }
}

impl Content {
    /// Builds the content of every configured book, stopping at the first
    /// book whose paths cannot be related to the configured directories.
    pub fn new(config: &config::GlobalConf, dirs: &Dirs) -> (r: Result<Content, PathError>)
        ensures
            match r {
                Ok(c) => ({
                    &&& c.0@.len() == config.books@.len()
                    &&& forall|i: int|
                        0 <= i < c.0@.len() ==> spec_book_build(
                            #[trigger] config.books@[i],
                            dirs@,
                        ) == Some(
                            (pages_view(c.0@[i].pages@), redirs_view(c.0@[i].redirects@)),
                        ) && c.0@[i].title@ == config.books@[i].summary.title@
                }),
                Err(_) => exists|i: int|
                    0 <= i < config.books@.len() && spec_book_build(
                        #[trigger] config.books@[i],
                        dirs@,
                    ) is None,
            },
    {
        let mut books: Vec<Book> = Vec::new();
        let n = config.books.len();
        let mut i: usize = 0;
        while i < n
            invariant
                i <= n,
                n == config.books@.len(),
                books@.len() == i,
                forall|k: int|
                    0 <= k < i ==> spec_book_build(#[trigger] config.books@[k], dirs@) == Some(
                        (pages_view(books@[k].pages@), redirs_view(books@[k].redirects@)),
                    ) && books@[k].title@ == config.books@[k].summary.title@,
            decreases n - i,
        {
            match Book::new(&config.books[i], dirs) {
                Ok(b) => {
                    books.push(b);
                },
                Err(e) => {
                    return Err(e);
                },
            }
            i = i + 1;
        }
        Ok(Content(books))
    }
}

} // verus!
