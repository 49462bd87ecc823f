//! Configuration as the build uses it: the command-line arguments, the book
//! list from the workspace configuration file, and the hydration of that
//! list into parsed books with absolute chapter locations.

use vstd::prelude::*;

use crate::paths::{join, spec_join};
use crate::summary::{Chapter, Link, Summary};

verus! {

/// The command-line arguments, already resolved to plain text paths.
#[derive(Debug)]
pub struct Args {
    /// The workspace directory holding the configuration file and the books.
    pub dir: String,
    /// Whether missing chapter files should be created.
    pub create: bool,
    /// An alternative template directory, if any.
    pub templates: Option<String>,
}

impl Default for Args {
    /// Arguments naming the current directory, creating nothing.
    fn default() -> (r: Self)
        ensures
            r.dir@ == Seq::<char>::empty(),
            r.create == false,
            r.templates is None,
    {
        Args { dir: String::new(), create: false, templates: None }
    }
}

/// Where one book lives, as the configuration file names it: either bare (the
/// name is the directory) or with an explicit root location.
#[derive(Debug)]
pub enum Location {
    Bare(String),
    Named { name: String, root_loc: String },
}

impl Location {
    /// The book's name.
    pub fn name(&self) -> (r: String)
        ensures
            r@ == match self {
                Location::Bare(n) => n@,
                Location::Named { name, .. } => name@,
            },
    {
        match self {
            Location::Bare(n) => n.clone(),
            Location::Named { name, .. } => name.clone(),
        }
    }

    /// The directory the book's sources live in, relative to the workspace.
    pub fn root_loc(&self) -> (r: String)
        ensures
            r@ == match self {
                Location::Bare(n) => n@,
                Location::Named { root_loc, .. } => root_loc@,
            },
    {
        match self {
            Location::Bare(n) => n.clone(),
            Location::Named { root_loc, .. } => root_loc.clone(),
        }
    }
}

/// The html renderer's options.
#[derive(Debug)]
pub struct HtmlConf {
    /// The site-relative URL prefix the books are served under.
    pub site_url: Option<String>,
}

impl Clone for HtmlConf {
    /// A clone keeps the site url.
    fn clone(&self) -> (r: Self)
        ensures
            r@ == self@,
    {
        let site_url = match &self.site_url {
            Some(u) => Some(u.clone()),
            None => None,
        };
        HtmlConf { site_url }
    }
}

/// The site url as a mathematical value.
pub struct HtmlConfV {
    pub site_url: Option<Seq<char>>,
}

impl View for HtmlConf {
    type V = HtmlConfV;

    open spec fn view(&self) -> HtmlConfV {
        HtmlConfV {
            site_url: match self.site_url {
                Some(u) => Some(u@),
                None => None,
            },
        }
    }
}

impl Default for HtmlConf {
    /// No site url configured: the books are served from the root.
    fn default() -> (r: Self)
        ensures
            r.site_url is None,
    {
        HtmlConf { site_url: None }
    }
}

/// The configuration as it stands in the workspace configuration file: book
/// directory names and renderer options.
#[derive(Debug)]
pub struct GlobalConfigRepr {
    pub books: Vec<String>,
    pub html: HtmlConf,
}

impl Default for GlobalConfigRepr {
    /// An empty workspace.
    fn default() -> (r: Self)
        ensures
            r.books@.len() == 0,
            r.html.site_url is None,
    {
        GlobalConfigRepr { books: Vec::new(), html: HtmlConf::default() }
    }
}

/// One book, located and with its summary parsed.
#[derive(Debug)]
pub struct Book {
    /// The book's root directory.
    pub location: String,
    /// The parsed summary document.
    pub summary: Summary,
}

impl Default for Book {
    /// An unnamed book with an empty layout.
    fn default() -> (r: Self)
        ensures
            r.location@ == Seq::<char>::empty(),
            r.summary.title@ == Seq::<char>::empty(),
            r.summary.prefix_chapters@.len() == 0,
            r.summary.numbered_chapters@.len() == 0,
            r.summary.suffix_chapters@.len() == 0,
    {
        Book { location: String::new(), summary: Summary::default() }
    }
}

/// The configuration in usable form: every book located and parsed.
#[derive(Debug)]
pub struct GlobalConf {
    pub books: Vec<Book>,
    pub html: HtmlConf,
}

impl Default for GlobalConf {
    /// An empty workspace.
    fn default() -> (r: Self)
        ensures
            r.books@.len() == 0,
            r.html.site_url is None,
    {
        GlobalConf { books: Vec::new(), html: HtmlConf::default() }
    }
}

/// `b` is `a` with a relative location, if any, joined onto the book's
/// directory; the name is kept.
pub open spec fn chapter_located(a: Chapter, b: Chapter, dir: Seq<char>) -> bool {
    &&& b.name@ == a.name@
    &&& b@.location == match a@.location {
        Some(l) => Some(spec_join(dir, l)),
        None => None,
    }
}

/// Throughout the subtrees, every chapter of `b` is the matching chapter of
/// `a` with its location joined onto the book's directory; numbering is kept.
pub open spec fn link_located(a: Link, b: Link, dir: Seq<char>) -> bool
    decreases a,
{
    &&& chapter_located(a.chapter, b.chapter, dir)
    &&& match (a.section_number, b.section_number) {
        (Some(n), Some(m)) => m.0@ == n.0@,
        (None, None) => true,
        _ => false,
    }
    &&& b.nested_items@.len() == a.nested_items@.len()
    &&& forall|i: int|
        0 <= i < a.nested_items@.len() ==> link_located(
            #[trigger] a.nested_items@[i],
            b.nested_items@[i],
            dir,
        )
}

/// A chapter with its location, if any, joined onto the book's directory.
fn locate_chapter(c: Chapter, dir: &str) -> (r: Chapter)
    ensures
        chapter_located(c, r, dir@),
{
    let location = match c.location {
        Some(l) => Some(join(dir, l.as_str())),
        None => None,
    };
    Chapter { name: c.name, location }
}

/// Joins the book's directory onto every location in the subtrees.
fn locate_links(links: &mut Vec<Link>, dir: &str)
    ensures
        final(links)@.len() == old(links)@.len(),
        forall|i: int|
            0 <= i < old(links)@.len() ==> link_located(
                #[trigger] old(links)@[i],
                final(links)@[i],
                dir@,
            ),
    decreases old(links)@,
{
    let ghost orig = links@;
    let n = links.len();
    let mut i: usize = 0;
    while i < n
        invariant
            orig == old(links)@,
            n == links@.len(),
            n == orig.len(),
            i <= n,
            forall|k: int| i <= k < n ==> links@[k] == orig[k],
            forall|k: int| 0 <= k < i ==> link_located(#[trigger] orig[k], links@[k], dir@),
        decreases n - i,
    {
        let mut link = links.remove(i);
        proof {
            assert(link == orig[i as int]);
            assert(decreases_to!(orig => orig[i as int]));
            assert(decreases_to!(orig[i as int] => orig[i as int].nested_items@));
        }
        let ch = link.chapter.clone();
        link.chapter = locate_chapter(ch, dir);
        locate_links(&mut link.nested_items, dir);
        links.insert(i, link);
        proof {
            assert(link_located(orig[i as int], links@[i as int], dir@));
        }
        i = i + 1;
    }
}

/// Converts the configuration's disk form to its usable form: each named
/// book gets its directory under `args.dir`, the matching parsed summary,
/// and every chapter location joined onto that directory. The summaries must
/// be supplied in the order the configuration names the books; reading and
/// parsing them is the caller's work.
pub fn hydrate(gcr: GlobalConfigRepr, args: &Args, summaries: Vec<Summary>) -> (r: GlobalConf)
    requires
        gcr.books@.len() == summaries@.len(),
    ensures
        r.html@ == gcr.html@,
        r.books@.len() == gcr.books@.len(),
        forall|i: int|
            0 <= i < r.books@.len() ==> (#[trigger] r.books@[i]).location@ == spec_join(
                args.dir@,
                gcr.books@[i]@,
            ),
        forall|i: int|
            0 <= i < r.books@.len() ==> (#[trigger] r.books@[i]).summary.title@
                == summaries@[i].title@,
        forall|i: int, j: int|
            0 <= i < r.books@.len() && 0 <= j < summaries@[i].prefix_chapters@.len()
                ==> chapter_located(
                #[trigger] summaries@[i].prefix_chapters@[j],
                r.books@[i].summary.prefix_chapters@[j],
                spec_join(args.dir@, gcr.books@[i]@),
            ),
        forall|i: int, j: int|
            0 <= i < r.books@.len() && 0 <= j < summaries@[i].suffix_chapters@.len()
                ==> chapter_located(
                #[trigger] summaries@[i].suffix_chapters@[j],
                r.books@[i].summary.suffix_chapters@[j],
                spec_join(args.dir@, gcr.books@[i]@),
            ),
        forall|i: int, j: int|
            0 <= i < r.books@.len() && 0 <= j < summaries@[i].numbered_chapters@.len()
                ==> link_located(
                #[trigger] summaries@[i].numbered_chapters@[j],
                r.books@[i].summary.numbered_chapters@[j],
                spec_join(args.dir@, gcr.books@[i]@),
            ),
        forall|i: int|
            0 <= i < r.books@.len() ==> (#[trigger] r.books@[i]).summary.prefix_chapters@.len()
                == summaries@[i].prefix_chapters@.len()
                && r.books@[i].summary.suffix_chapters@.len()
                == summaries@[i].suffix_chapters@.len()
                && r.books@[i].summary.numbered_chapters@.len()
                == summaries@[i].numbered_chapters@.len(),
{
    let ghost given = summaries@;
    let mut books: Vec<Book> = Vec::new();
    let mut summaries_left = summaries;
    let n = gcr.books.len();
    let mut i: usize = 0;
    while i < n
        invariant
            n == gcr.books@.len(),
            n == given.len(),
            i <= n,
            summaries_left@ == given.skip(i as int),
            books@.len() == i,
            forall|k: int|
                0 <= k < books@.len() ==> (#[trigger] books@[k]).location@ == spec_join(
                    args.dir@,
                    gcr.books@[k]@,
                ),
            forall|k: int|
                0 <= k < books@.len() ==> (#[trigger] books@[k]).summary.title@
                    == given[k].title@,
            forall|k: int, j: int|
                0 <= k < books@.len() && 0 <= j < given[k].prefix_chapters@.len()
                    ==> chapter_located(
                    #[trigger] given[k].prefix_chapters@[j],
                    books@[k].summary.prefix_chapters@[j],
                    spec_join(args.dir@, gcr.books@[k]@),
                ),
            forall|k: int, j: int|
                0 <= k < books@.len() && 0 <= j < given[k].suffix_chapters@.len()
                    ==> chapter_located(
                    #[trigger] given[k].suffix_chapters@[j],
                    books@[k].summary.suffix_chapters@[j],
                    spec_join(args.dir@, gcr.books@[k]@),
                ),
            forall|k: int, j: int|
                0 <= k < books@.len() && 0 <= j < given[k].numbered_chapters@.len()
                    ==> link_located(
                    #[trigger] given[k].numbered_chapters@[j],
                    books@[k].summary.numbered_chapters@[j],
                    spec_join(args.dir@, gcr.books@[k]@),
                ),
            forall|k: int|
                0 <= k < books@.len() ==> (#[trigger] books@[k]).summary.prefix_chapters@.len()
                    == given[k].prefix_chapters@.len()
                    && books@[k].summary.suffix_chapters@.len()
                    == given[k].suffix_chapters@.len()
                    && books@[k].summary.numbered_chapters@.len()
                    == given[k].numbered_chapters@.len(),
        decreases n - i,
    {
        let summary = summaries_left.remove(0);
        proof {
            assert(summary == given[i as int]);
            assert(given.skip(i as int).skip(1) =~= given.skip(i + 1));
        }
        let location = join(args.dir.as_str(), gcr.books[i].as_str());
        let book = locate_summary(summary, location);
        books.push(book);
        i = i + 1;
    }
    GlobalConf { books, html: gcr.html }
}

/// One book built from a parsed summary: every chapter location joined onto
/// the book's directory.
fn locate_summary(summary: Summary, location: String) -> (r: Book)
    ensures
        r.location@ == location@,
        r.summary.title@ == summary.title@,
        r.summary.prefix_chapters@.len() == summary.prefix_chapters@.len(),
        r.summary.suffix_chapters@.len() == summary.suffix_chapters@.len(),
        r.summary.numbered_chapters@.len() == summary.numbered_chapters@.len(),
        forall|j: int|
            0 <= j < summary.prefix_chapters@.len() ==> chapter_located(
                #[trigger] summary.prefix_chapters@[j],
                r.summary.prefix_chapters@[j],
                location@,
            ),
        forall|j: int|
            0 <= j < summary.suffix_chapters@.len() ==> chapter_located(
                #[trigger] summary.suffix_chapters@[j],
                r.summary.suffix_chapters@[j],
                location@,
            ),
        forall|j: int|
            0 <= j < summary.numbered_chapters@.len() ==> link_located(
                #[trigger] summary.numbered_chapters@[j],
                r.summary.numbered_chapters@[j],
                location@,
            ),
{
    let Summary { title, prefix_chapters, numbered_chapters, suffix_chapters } = summary;
    let ghost orig_prefix = prefix_chapters@;
    let ghost orig_suffix = suffix_chapters@;
    let ghost orig_numbered = numbered_chapters@;
    let mut prefix_chapters = prefix_chapters;
    let mut i: usize = 0;
    let n = prefix_chapters.len();
    while i < n
        invariant
            n == prefix_chapters@.len(),
            n == orig_prefix.len(),
            i <= n,
            forall|k: int| i <= k < n ==> prefix_chapters@[k] == orig_prefix[k],
            forall|k: int|
                0 <= k < i ==> chapter_located(
                    #[trigger] orig_prefix[k],
                    prefix_chapters@[k],
                    location@,
                ),
        decreases n - i,
    {
        let c = prefix_chapters.remove(i);
        let c = locate_chapter(c, location.as_str());
        prefix_chapters.insert(i, c);
        i = i + 1;
    }
    let mut suffix_chapters = suffix_chapters;
    let mut i: usize = 0;
    let n = suffix_chapters.len();
    while i < n
        invariant
            n == suffix_chapters@.len(),
            n == orig_suffix.len(),
            i <= n,
            forall|k: int| i <= k < n ==> suffix_chapters@[k] == orig_suffix[k],
            forall|k: int|
                0 <= k < i ==> chapter_located(
                    #[trigger] orig_suffix[k],
                    suffix_chapters@[k],
                    location@,
                ),
        decreases n - i,
    {
        let c = suffix_chapters.remove(i);
        let c = locate_chapter(c, location.as_str());
        suffix_chapters.insert(i, c);
        i = i + 1;
    }
    let mut numbered_chapters = numbered_chapters;
    locate_links(&mut numbered_chapters, location.as_str());
    Book {
        location,
        summary: Summary { title, prefix_chapters, numbered_chapters, suffix_chapters },
    }
}

} // verus!
