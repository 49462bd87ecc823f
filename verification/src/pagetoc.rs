//! The per-page table of contents: the headings of one page, as the
//! rendering collaborator fills them in after reading the page's source.

use vstd::prelude::*;

verus! {

/// A named link of the page's own table of contents.
#[derive(Debug)]
pub struct Link {
    /// The display name, e.g. "Creating a book".
    pub pritty: String,
    /// The link target, e.g. "creating-a-book".
    pub link: String,
}

impl Clone for Link {
    /// A clone keeps both parts.
    fn clone(&self) -> (r: Self)
        ensures
            r.pritty@ == self.pritty@,
            r.link@ == self.link@,
    {
        Link { pritty: self.pritty.clone(), link: self.link.clone() }
    }
}

impl Default for Link {
    /// An empty link.
    fn default() -> (r: Self)
        ensures
            r.pritty@ == Seq::<char>::empty(),
            r.link@ == Seq::<char>::empty(),
    {
        Link { pritty: String::new(), link: String::new() }
    }
}

/// A third-level heading of the page.
#[derive(Debug)]
pub struct H3(pub Link);

/// A second-level heading of the page, with the third-level headings under
/// it.
#[derive(Debug)]
pub struct H2 {
    pub this: Link,
    pub children: Vec<H3>,
}

/// The page's own table of contents: its second-level headings in order.
#[derive(Debug)]
pub struct PageToc(pub Vec<H2>);

/// Options every rendered page shares, not specific to one page.
#[derive(Debug)]
pub struct Global {
    pub path_to_root: String,
    pub language: String,
    pub preferred_dark_theme: String,
    pub default_theme: String,
}

impl Default for Global {
    /// The conventional choices: English at the site root, with the usual
    /// light and dark themes.
    fn default() -> (r: Self)
        ensures
            r.path_to_root@ == "/"@,
            r.language@ == "en"@,
            r.default_theme@ == "rust"@,
            r.preferred_dark_theme@ == "coal"@,
    {
        Global {
            path_to_root: "/".to_owned(),
            language: "en".to_owned(),
            default_theme: "rust".to_owned(),
            preferred_dark_theme: "coal".to_owned(),
        }
    }
}

impl Default for PageToc {
    /// The table of contents before the page's source has been read.
    fn default() -> (r: Self)
        ensures
            r.0@.len() == 0,
    {
        PageToc(Vec::new())
    }
}

} // verus!
