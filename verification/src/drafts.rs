//! Planning the stub files for chapters whose sources are missing: for
//! every chapter that names a location, the file the book expects and the
//! one-line heading it would be created with. Checking which files already
//! exist, and writing the missing ones, is the caller's work.

use vstd::prelude::*;

use crate::collect::redirs_view;
use crate::paths::{join, spec_join};
use crate::summary::{Chapter, ChapterV, Link, Summary};
use crate::text::push_char;

verus! {

/// The one-line contents of a stub file: a heading with the chapter's name.
pub open spec fn stub_line(name: Seq<char>) -> Seq<char> {
    seq!['#', ' '] + name + seq!['\n']
}

/// The stub entry of one chapter: its location joined onto the book
/// directory and its heading line — nothing for a draft.
pub open spec fn chapter_stub(c: ChapterV, dir: Seq<char>) -> Seq<(Seq<char>, Seq<char>)> {
    match c.location {
        Some(l) => seq![(spec_join(dir, l), stub_line(c.name))],
        None => Seq::empty(),
    }
}

/// The stub entries of a run of un-numbered chapters, in order.
pub open spec fn chapters_stubs(cs: Seq<Chapter>, dir: Seq<char>) -> Seq<(Seq<char>, Seq<char>)>
    decreases cs.len(),
{
    if cs.len() == 0 {
        Seq::empty()
    } else {
        chapter_stub(cs[0]@, dir) + chapters_stubs(cs.skip(1), dir)
    }
}

/// The stub entries of one subtree, depth first.
pub open spec fn link_stubs(l: Link, dir: Seq<char>) -> Seq<(Seq<char>, Seq<char>)>
    decreases l,
{
    chapter_stub(l.chapter@, dir) + links_stubs(l.nested_items@, dir)
}

/// The stub entries of a forest of subtrees, in order.
pub open spec fn links_stubs(ls: Seq<Link>, dir: Seq<char>) -> Seq<(Seq<char>, Seq<char>)>
    decreases ls,
{
    if ls.len() == 0 {
        Seq::empty()
    } else {
        link_stubs(ls[0], dir) + links_stubs(ls.skip(1), dir)
    }
}

/// Every located chapter's stub entry, in document order: the prefix
/// chapters, the numbered tree depth first, then the suffix chapters.
pub open spec fn summary_stubs(s: Summary, dir: Seq<char>) -> Seq<(Seq<char>, Seq<char>)> {
    chapters_stubs(s.prefix_chapters@, dir) + links_stubs(s.numbered_chapters@, dir)
        + chapters_stubs(s.suffix_chapters@, dir)
}

proof fn lemma_chapters_stubs_snoc(cs: Seq<Chapter>, c: Chapter, dir: Seq<char>)
    ensures
        chapters_stubs(cs.push(c), dir) == chapters_stubs(cs, dir) + chapter_stub(c@, dir),
    decreases cs.len(),
{
    if cs.len() == 0 {
        assert(cs.push(c).skip(1) =~= Seq::<Chapter>::empty());
        assert(cs.push(c)[0] == c);
        assert(cs.push(c).len() == 1);
        assert(chapters_stubs(cs.push(c), dir) == chapter_stub(cs.push(c)[0]@, dir)
            + chapters_stubs(cs.push(c).skip(1), dir));
        assert(chapters_stubs(Seq::<Chapter>::empty(), dir) == Seq::<(
            Seq<char>,
            Seq<char>,
        )>::empty());
        assert(chapters_stubs(cs, dir) == Seq::<(Seq<char>, Seq<char>)>::empty());
        assert(chapters_stubs(cs.push(c), dir) =~= chapters_stubs(cs, dir) + chapter_stub(
            c@,
            dir,
        ));
    } else {
        assert(cs.push(c).skip(1) =~= cs.skip(1).push(c));
        lemma_chapters_stubs_snoc(cs.skip(1), c, dir);
        assert(cs.push(c)[0] == cs[0]);
        assert(chapters_stubs(cs.push(c), dir) =~= chapters_stubs(cs, dir) + chapter_stub(
            c@,
            dir,
        ));
    }
}

proof fn lemma_links_stubs_snoc(ls: Seq<Link>, l: Link, dir: Seq<char>)
    ensures
        links_stubs(ls.push(l), dir) == links_stubs(ls, dir) + link_stubs(l, dir),
    decreases ls.len(),
{
    if ls.len() == 0 {
        assert(ls.push(l).skip(1) =~= Seq::<Link>::empty());
        assert(ls.push(l)[0] == l);
        assert(ls.push(l).len() == 1);
        assert(links_stubs(ls.push(l), dir) == link_stubs(ls.push(l)[0], dir) + links_stubs(
            ls.push(l).skip(1),
            dir,
        ));
        assert(links_stubs(Seq::<Link>::empty(), dir) == Seq::<(Seq<char>, Seq<char>)>::empty());
        assert(links_stubs(ls, dir) == Seq::<(Seq<char>, Seq<char>)>::empty());
        assert(links_stubs(ls.push(l), dir) =~= links_stubs(ls, dir) + link_stubs(l, dir));
    } else {
        assert(ls.push(l).skip(1) =~= ls.skip(1).push(l));
        lemma_links_stubs_snoc(ls.skip(1), l, dir);
        assert(ls.push(l)[0] == ls[0]);
        assert(links_stubs(ls.push(l), dir) =~= links_stubs(ls, dir) + link_stubs(l, dir));
    }
}

/// Appends the stub entry of one chapter, if it names a location.
fn push_chapter_stub(out: &mut Vec<(String, String)>, c: &Chapter, dir: &str)
    ensures
        redirs_view(final(out)@) == redirs_view(old(out)@) + chapter_stub(c@, dir@),
{
    match &c.location {
        Some(l) => {
            let path = join(dir, l.as_str());
            let mut line = String::new();
            push_char(&mut line, '#');
            push_char(&mut line, ' ');
            line.append(c.name.as_str());
            push_char(&mut line, '\n');
            proof {
                assert(line@ =~= stub_line(c.name@));
            }
            out.push((path, line));
            proof {
                assert(redirs_view(out@) =~= redirs_view(old(out)@) + chapter_stub(c@, dir@));
            }
        },
        None => {
            proof {
                assert(redirs_view(out@) =~= redirs_view(old(out)@) + chapter_stub(c@, dir@));
            }
        },
    }
}

/// Appends the stub entries of one subtree, depth first.
fn push_link_stubs(out: &mut Vec<(String, String)>, link: &Link, dir: &str)
    ensures
        redirs_view(final(out)@) == redirs_view(old(out)@) + link_stubs(*link, dir@),
    decreases *link,
{
    push_chapter_stub(out, &link.chapter, dir);
    let n = link.nested_items.len();
    let mut i: usize = 0;
    while i < n
        invariant
            i <= n,
            n == link.nested_items@.len(),
            redirs_view(out@) == redirs_view(old(out)@) + chapter_stub(link.chapter@, dir@)
                + links_stubs(link.nested_items@.take(i as int), dir@),
        decreases n - i,
    {
        proof {
            assert(decreases_to!(*link => link.nested_items@[i as int]));
        }
        push_link_stubs(out, &link.nested_items[i], dir);
        proof {
            assert(link.nested_items@.take(i + 1) =~= link.nested_items@.take(i as int).push(
                link.nested_items@[i as int],
            ));
            lemma_links_stubs_snoc(
                link.nested_items@.take(i as int),
                link.nested_items@[i as int],
                dir@,
            );
            assert(redirs_view(out@) =~= redirs_view(old(out)@) + chapter_stub(
                link.chapter@,
                dir@,
            ) + links_stubs(link.nested_items@.take(i + 1), dir@));
        }
        i = i + 1;
    }
    proof {
        assert(link.nested_items@.take(n as int) =~= link.nested_items@);
    }
}

/// The stub file of every chapter that names a location, in document order:
/// the file's path under the book directory, and the heading line it would
/// be created with when missing.
pub fn stub_files(src_dir: &str, summary: &Summary) -> (r: Vec<(String, String)>)
    ensures
        redirs_view(r@) == summary_stubs(*summary, src_dir@),
{
    let mut out: Vec<(String, String)> = Vec::new();
    let npre = summary.prefix_chapters.len();
    let mut i: usize = 0;
    while i < npre
        invariant
            i <= npre,
            npre == summary.prefix_chapters@.len(),
            redirs_view(out@) == chapters_stubs(summary.prefix_chapters@.take(i as int), src_dir@),
        decreases npre - i,
    {
        push_chapter_stub(&mut out, &summary.prefix_chapters[i], src_dir);
        proof {
            assert(summary.prefix_chapters@.take(i + 1) =~= summary.prefix_chapters@.take(
                i as int,
            ).push(summary.prefix_chapters@[i as int]));
            lemma_chapters_stubs_snoc(
                summary.prefix_chapters@.take(i as int),
                summary.prefix_chapters@[i as int],
                src_dir@,
            );
        }
        i = i + 1;
    }
    proof {
        assert(summary.prefix_chapters@.take(npre as int) =~= summary.prefix_chapters@);
    }
    let nnum = summary.numbered_chapters.len();
    let mut i: usize = 0;
    while i < nnum
        invariant
            i <= nnum,
            nnum == summary.numbered_chapters@.len(),
            redirs_view(out@) == chapters_stubs(summary.prefix_chapters@, src_dir@) + links_stubs(
                summary.numbered_chapters@.take(i as int),
                src_dir@,
            ),
        decreases nnum - i,
    {
        push_link_stubs(&mut out, &summary.numbered_chapters[i], src_dir);
        proof {
            assert(summary.numbered_chapters@.take(i + 1) =~= summary.numbered_chapters@.take(
                i as int,
            ).push(summary.numbered_chapters@[i as int]));
            lemma_links_stubs_snoc(
                summary.numbered_chapters@.take(i as int),
                summary.numbered_chapters@[i as int],
                src_dir@,
            );
            assert(redirs_view(out@) =~= chapters_stubs(summary.prefix_chapters@, src_dir@)
                + links_stubs(summary.numbered_chapters@.take(i + 1), src_dir@));
        }
        i = i + 1;
    }
    proof {
        assert(summary.numbered_chapters@.take(nnum as int) =~= summary.numbered_chapters@);
    }
    let nsuf = summary.suffix_chapters.len();
    let mut i: usize = 0;
    while i < nsuf
        invariant
            i <= nsuf,
            nsuf == summary.suffix_chapters@.len(),
            redirs_view(out@) == chapters_stubs(summary.prefix_chapters@, src_dir@) + links_stubs(
                summary.numbered_chapters@,
                src_dir@,
            ) + chapters_stubs(summary.suffix_chapters@.take(i as int), src_dir@),
        decreases nsuf - i,
    {
        push_chapter_stub(&mut out, &summary.suffix_chapters[i], src_dir);
        proof {
            assert(summary.suffix_chapters@.take(i + 1) =~= summary.suffix_chapters@.take(
                i as int,
            ).push(summary.suffix_chapters@[i as int]));
            lemma_chapters_stubs_snoc(
                summary.suffix_chapters@.take(i as int),
                summary.suffix_chapters@[i as int],
                src_dir@,
            );
            assert(redirs_view(out@) =~= chapters_stubs(summary.prefix_chapters@, src_dir@)
                + links_stubs(summary.numbered_chapters@, src_dir@) + chapters_stubs(
                summary.suffix_chapters@.take(i + 1),
                src_dir@,
            ));
        }
        i = i + 1;
    }
    proof {
        assert(summary.suffix_chapters@.take(nsuf as int) =~= summary.suffix_chapters@);
    }
    out
}

} // verus!
