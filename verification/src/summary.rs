//! The parsed form of a book's summary document: chapters, the table-of-
//! contents tree, and hierarchical section numbers.

use vstd::prelude::*;
use vstd::slice::slice_subrange;
use vstd::string::{StrSliceExecFns, StringSliceAdditionalSpecFns};

use crate::events::{
    stringified, stringify_events, tag_eq, tag_matches, tokenize, MdEvent, MdEventKind, MdTag,
};
use crate::text::{dec_str, push_char, push_dec};

verus! {

/// A section number like "1.2.3": one positive integer per nesting depth,
/// assigned depth-first in document order.
#[derive(Debug)]
pub struct SectionNumber(pub Vec<u32>);

impl Clone for SectionNumber {
    /// A clone keeps the components.
    fn clone(&self) -> (r: Self)
        ensures
            r.0@ == self.0@,
    {
        SectionNumber(self.0.clone())
    }
}

/// The dotted text of the components of a section number: each component in
/// decimal followed by one '.'.
pub open spec fn dotted_components(s: Seq<u32>) -> Seq<char>
    decreases s.len(),
{
    if s.len() == 0 {
        Seq::empty()
    } else {
        dec_str(s[0] as nat) + seq!['.'] + dotted_components(s.skip(1))
    }
}

/// The display form of a section number: "1.2.3." for [1, 2, 3], and "0" for
/// the empty sequence.
pub open spec fn dotted_str(s: Seq<u32>) -> Seq<char> {
    if s.len() == 0 {
        seq!['0']
    } else {
        dotted_components(s)
    }
}

proof fn lemma_dotted_components_snoc(s: Seq<u32>, x: u32)
    ensures
        dotted_components(s.push(x)) == dotted_components(s) + dec_str(x as nat) + seq!['.'],
    decreases s.len(),
{
    if s.len() == 0 {
        assert(s.push(x).skip(1) =~= Seq::<u32>::empty());
        assert(s.push(x)[0] == x);
        assert(s.push(x).len() == 1);
        assert(dotted_components(s.push(x)) == dec_str(s.push(x)[0] as nat) + seq!['.']
            + dotted_components(s.push(x).skip(1)));
        assert(dotted_components(Seq::<u32>::empty()) == Seq::<char>::empty());
        assert(dotted_components(s) == Seq::<char>::empty());
        assert(dotted_components(s.push(x)) =~= dotted_components(s) + dec_str(x as nat)
            + seq!['.']);
    } else {
        assert(s.push(x).skip(1) =~= s.skip(1).push(x));
        lemma_dotted_components_snoc(s.skip(1), x);
        assert(s.push(x)[0] == s[0]);
        assert(dotted_components(s.push(x)) == dec_str(s[0] as nat) + seq!['.'] + (
        dotted_components(s.skip(1)) + dec_str(x as nat) + seq!['.']));
        assert(dotted_components(s.push(x)) =~= dotted_components(s) + dec_str(x as nat)
            + seq!['.']);
    }
}

impl SectionNumber {
    /// The display form: components joined with '.', with a trailing '.';
    /// an empty section number displays as "0".
    pub fn to_string(&self) -> (r: String)
        ensures
            r@ == dotted_str(self.0@),
    {
        let mut r = String::new();
        if self.0.len() == 0 {
            push_char(&mut r, '0');
            proof {
                assert(r@ =~= dotted_str(self.0@));
            }
            return r;
        }
        let mut i: usize = 0;
        while i < self.0.len()
            invariant
                i <= self.0.len(),
                r@ == dotted_components(self.0@.take(i as int)),
            decreases self.0.len() - i,
        {
            push_dec(&mut r, self.0[i]);
            push_char(&mut r, '.');
            proof {
                assert(self.0@.take(i + 1) =~= self.0@.take(i as int).push(self.0@[i as int]));
                lemma_dotted_components_snoc(self.0@.take(i as int), self.0@[i as int]);
            }
            i = i + 1;
        }
        proof {
            assert(self.0@.take(self.0@.len() as int) =~= self.0@);
        }
        r
    }
}

impl Default for SectionNumber {
    /// An empty section number, the root of the numbering protocol.
    fn default() -> (r: Self)
        ensures
            r.0@ == Seq::<u32>::empty(),
    {
        SectionNumber(Vec::new())
    }
}

/// One entry of the table of contents: a display name and, unless the
/// chapter is a draft, the location of its markdown source.
#[derive(Debug)]
pub struct Chapter {
    pub name: String,
    /// `None` marks a draft chapter: listed in the table of contents but
    /// never rendered or linked.
    pub location: Option<String>,
}

/// The mathematical content of a chapter.
pub struct ChapterV {
    pub name: Seq<char>,
    pub location: Option<Seq<char>>,
}

impl View for Chapter {
    type V = ChapterV;

    open spec fn view(&self) -> ChapterV {
        ChapterV {
            name: self.name@,
            location: match self.location {
                Some(l) => Some(l@),
                None => None,
            },
        }
    }
}

impl Clone for Chapter {
    /// A clone keeps the name and the location.
    fn clone(&self) -> (r: Self)
        ensures
            r@ == self@,
    {
        let location = match &self.location {
            Some(l) => Some(l.clone()),
            None => None,
        };
        let r = Chapter { name: self.name.clone(), location };
        proof {
            assert(r@ == self@);
        }
        r
    }
}

impl Default for Chapter {
    /// An unnamed draft chapter.
    fn default() -> (r: Self)
        ensures
            r.name@ == Seq::<char>::empty(),
            r.location is None,
    {
        Chapter { name: String::new(), location: None }
    }
}

/// A node of the table-of-contents tree: a chapter, its nested entries, and
/// its section number once one is assigned.
#[derive(Debug)]
pub struct Link {
    pub chapter: Chapter,
    pub nested_items: Vec<Link>,
    pub section_number: Option<SectionNumber>,
}

impl Default for Link {
    /// A leaf link around a draft chapter, not yet numbered.
    fn default() -> (r: Self)
        ensures
            r.chapter.name@ == Seq::<char>::empty(),
            r.chapter.location is None,
            r.nested_items@ == Seq::<Link>::empty(),
            r.section_number is None,
    {
        Link { chapter: Chapter::default(), nested_items: Vec::new(), section_number: None }
    }
}

/// The parsed summary document: how the book is laid out.
#[derive(Debug)]
pub struct Summary {
    /// The title given by the document's leading heading.
    pub title: String,
    /// Un-numbered chapters before the main text (e.g. an introduction).
    pub prefix_chapters: Vec<Chapter>,
    /// The main numbered chapters, in document order across all parts.
    pub numbered_chapters: Vec<Link>,
    /// Un-numbered chapters after the main text (e.g. a conclusion).
    pub suffix_chapters: Vec<Chapter>,
}

impl Default for Summary {
    /// The empty book layout.
    fn default() -> (r: Self)
        ensures
            r.title@ == Seq::<char>::empty(),
            r.prefix_chapters@ == Seq::<Chapter>::empty(),
            r.numbered_chapters@ == Seq::<Link>::empty(),
            r.suffix_chapters@ == Seq::<Chapter>::empty(),
    {
        Summary {
            title: String::new(),
            prefix_chapters: Vec::new(),
            numbered_chapters: Vec::new(),
            suffix_chapters: Vec::new(),
        }
    }
}

/// Every chapter of the subtree is one the closure accepts with `Ok`.
pub open spec fn try_map_ok<E, F: Fn(&Chapter) -> Result<(), E>>(l: Link, f: F) -> bool
    decreases l,
{
    &&& (exists|c: &Chapter| c@ == l.chapter@ && #[trigger] f.ensures((c,), Ok(())))
    &&& forall|i: int|
        0 <= i < l.nested_items@.len() ==> try_map_ok(#[trigger] l.nested_items@[i], f)
}

/// `b` has the very tree shape and numbering of `a`: only the chapters may
/// differ.
pub open spec fn link_same_shape(a: Link, b: Link) -> bool
    decreases a,
{
    &&& match (a.section_number, b.section_number) {
        (Some(n), Some(m)) => m.0@ == n.0@,
        (None, None) => true,
        _ => false,
    }
    &&& b.nested_items@.len() == a.nested_items@.len()
    &&& forall|i: int|
        0 <= i < a.nested_items@.len() ==> link_same_shape(
            #[trigger] a.nested_items@[i],
            b.nested_items@[i],
        )
}

impl Link {
    /// Applies `f` to this link's chapter and, depth first, to every
    /// descendant's chapter; the tree's shape and numbering are kept. What
    /// `f` makes of each chapter cannot be promised here: the relation
    /// between a chapter before and after an `f(&mut _)` call has no
    /// spec-level name, so callers who need it should walk the tree
    /// themselves.
    pub fn map_mut<F: Fn(&mut Chapter) + Copy>(&mut self, f: F)
        requires
            forall|c: &mut Chapter| #[trigger] f.requires((c,)),
        ensures
            link_same_shape(*old(self), *final(self)),
        decreases old(self).nested_items@,
    {
        f(&mut self.chapter);
        let n = self.nested_items.len();
        let mut i: usize = 0;
        while i < n
            invariant
                n == self.nested_items@.len(),
                i <= n,
                forall|c: &mut Chapter| #[trigger] f.requires((c,)),
                self.nested_items@.len() == old(self).nested_items@.len(),
                self.section_number == old(self).section_number,
                forall|k: int|
                    i <= k < n ==> self.nested_items@[k] == old(self).nested_items@[k],
                forall|k: int|
                    0 <= k < i ==> link_same_shape(
                        #[trigger] old(self).nested_items@[k],
                        self.nested_items@[k],
                    ),
            decreases n - i,
        {
            let mut item = self.nested_items.remove(i);
            proof {
                assert(item == old(self).nested_items@[i as int]);
                assert(decreases_to!(old(self).nested_items@ => old(
                    self,
                ).nested_items@[i as int]));
                assert(decreases_to!(old(self).nested_items@[i as int] => old(
                    self,
                ).nested_items@[i as int].nested_items@));
            }
            item.map_mut(f);
            self.nested_items.insert(i, item);
            i = i + 1;
        }
        proof {
            assert(link_same_shape(*old(self), *self));
        }
    }

    /// Applies `f` to this link's chapter and, depth first, to every
    /// descendant's chapter, stopping at the first error; an error is always
    /// one that `f` produced on some chapter, and success means `f`
    /// accepted every chapter of the subtree.
    pub fn try_map<E, F: Fn(&Chapter) -> Result<(), E> + Copy>(&self, f: F) -> (r: Result<(), E>)
        requires
            forall|c: &Chapter| #[trigger] f.requires((c,)),
        ensures
            r matches Err(e) ==> exists|c: &Chapter| #[trigger] f.ensures((c,), Err(e)),
            r is Ok ==> try_map_ok(*self, f),
        decreases self.nested_items@,
    {
        let root_result = f(&self.chapter);
        let ghost rr = root_result;
        proof {
            assert(f.ensures((&self.chapter,), rr));
        }
        match root_result {
            Ok(()) => {},
            Err(e) => {
                return Err(e);
            },
        }
        proof {
            assert(rr is Ok);
            assert(rr->Ok_0 == ());
            assert(rr == Ok::<(), E>(()));
            assert(f.ensures((&self.chapter,), Ok(())));
            assert(exists|c: &Chapter| c@ == self.chapter@ && #[trigger] f.ensures(
                (c,),
                Ok(()),
            ));
        }
        let n = self.nested_items.len();
        let mut i: usize = 0;
        while i < n
            invariant
                n == self.nested_items@.len(),
                i <= n,
                forall|c: &Chapter| #[trigger] f.requires((c,)),
                exists|c: &Chapter| c@ == self.chapter@ && #[trigger] f.ensures((c,), Ok(())),
                forall|k: int| 0 <= k < i ==> try_map_ok(#[trigger] self.nested_items@[k], f),
            decreases n - i,
        {
            proof {
                assert(decreases_to!(self.nested_items@ => self.nested_items@[i as int]));
                assert(decreases_to!(self.nested_items@[i as int] => self.nested_items@[
                i as int].nested_items@));
            }
            let item = &self.nested_items[i];
            match item.try_map(f) {
                Ok(()) => {},
                Err(e) => {
                    return Err(e);
                },
            }
            i = i + 1;
        }
        Ok(())
    }
}

/// The link and all its descendants carry the section numbers that document
/// order assigns under `prefix`: the link itself is numbered `prefix` and the
/// `j`th of its nested items is numbered `prefix` extended with `j + 1`.
pub open spec fn link_numbered(l: Link, prefix: Seq<u32>) -> bool
    decreases l,
{
    &&& l.section_number matches Some(n) && n.0@ == prefix
    &&& forall|j: int|
        0 <= j < l.nested_items@.len() ==> link_numbered(
            #[trigger] l.nested_items@[j],
            prefix.push((j + 1) as u32),
        )
}

/// Sibling links are numbered contiguously ascending from `start` under
/// `prefix`, with each subtree numbered in document order.
pub open spec fn links_numbered(ls: Seq<Link>, prefix: Seq<u32>, start: u32) -> bool {
    forall|i: int| 0 <= i < ls.len() ==> link_numbered(#[trigger] ls[i], prefix.push((start + i) as u32))
}

/// Every section number in the subtree is long enough to be shifted at
/// `level` and has room for the shift.
pub open spec fn bump_ok(l: Link, level: int, by: u32) -> bool
    decreases l,
{
    &&& match l.section_number {
        Some(n) => level < n.0@.len() && n.0@[level] + by <= u32::MAX,
        None => true,
    }
    &&& forall|i: int|
        0 <= i < l.nested_items@.len() ==> bump_ok(#[trigger] l.nested_items@[i], level, by)
}

/// `b` is `a` with every section number in the subtree shifted by `by` at
/// exactly the component `level`, everything else unchanged.
pub open spec fn link_bumped(a: Link, b: Link, level: int, by: u32) -> bool
    decreases a,
{
    &&& b.chapter@ == a.chapter@
    &&& match (a.section_number, b.section_number) {
        (Some(n), Some(m)) => m.0@ == n.0@.update(level, (n.0@[level] + by) as u32),
        (None, None) => true,
        _ => false,
    }
    &&& b.nested_items@.len() == a.nested_items@.len()
    &&& forall|i: int|
        0 <= i < a.nested_items@.len() ==> link_bumped(
            #[trigger] a.nested_items@[i],
            b.nested_items@[i],
            level,
            by,
        )
}

/// A correctly numbered subtree can be shifted at the root component.
proof fn lemma_numbered_bump_ok(l: Link, prefix: Seq<u32>, by: u32)
    requires
        link_numbered(l, prefix),
        prefix.len() > 0,
        prefix[0] + by <= u32::MAX,
    ensures
        bump_ok(l, 0, by),
    decreases l,
{
    let n = l.section_number->Some_0;
    assert(n.0@[0] == prefix[0]);
    assert forall|i: int| 0 <= i < l.nested_items@.len() implies bump_ok(
        #[trigger] l.nested_items@[i],
        0,
        by,
    ) by {
        assert(link_numbered(l.nested_items@[i], prefix.push((i + 1) as u32)));
        assert(prefix.push((i + 1) as u32)[0] == prefix[0]);
        lemma_numbered_bump_ok(l.nested_items@[i], prefix.push((i + 1) as u32), by);
    }
}

/// Shifting the root component of a correctly numbered subtree renumbers it
/// under the shifted prefix.
proof fn lemma_bumped_numbered(a: Link, b: Link, prefix: Seq<u32>, by: u32)
    requires
        link_numbered(a, prefix),
        link_bumped(a, b, 0, by),
        prefix.len() > 0,
    ensures
        link_numbered(b, prefix.update(0, (prefix[0] + by) as u32)),
    decreases a,
{
    let shifted = prefix.update(0, (prefix[0] + by) as u32);
    assert(b.section_number->Some_0.0@ =~= shifted);
    assert forall|j: int| 0 <= j < b.nested_items@.len() implies link_numbered(
        #[trigger] b.nested_items@[j],
        shifted.push((j + 1) as u32),
    ) by {
        let child_prefix = prefix.push((j + 1) as u32);
        assert(link_numbered(a.nested_items@[j], child_prefix));
        assert(link_bumped(a.nested_items@[j], b.nested_items@[j], 0, by));
        lemma_bumped_numbered(a.nested_items@[j], b.nested_items@[j], child_prefix, by);
        assert(child_prefix.update(0, (child_prefix[0] + by) as u32) =~= shifted.push(
            (j + 1) as u32,
        ));
    }
}

/// Two runs of correctly numbered siblings concatenate into one.
proof fn lemma_links_numbered_concat(a: Seq<Link>, b: Seq<Link>, prefix: Seq<u32>, start: u32)
    requires
        links_numbered(a, prefix, start),
        links_numbered(b, prefix, (start + a.len()) as u32),
        start + a.len() <= u32::MAX,
    ensures
        links_numbered(a + b, prefix, start),
{
    assert forall|i: int| 0 <= i < (a + b).len() implies #[trigger] link_numbered(
        (a + b)[i],
        prefix.push((start + i) as u32),
    ) by {
        if i < a.len() {
            assert((a + b)[i] == a[i]);
        } else {
            assert((a + b)[i] == b[i - a.len()]);
            assert(link_numbered(
                b[i - a.len()],
                prefix.push(((start + a.len()) as u32 + (i - a.len())) as u32),
            ));
            assert(((start + a.len()) as u32 + (i - a.len())) as u32 == (start + i) as u32);
        }
    }
}

/// A section number with one component shifted.
fn bump_component(num: SectionNumber, level: usize, by: u32) -> (r: SectionNumber)
    requires
        (level as int) < num.0@.len(),
        num.0@[level as int] + by <= u32::MAX,
    ensures
        r.0@ == num.0@.update(level as int, (num.0@[level as int] + by) as u32),
{
    let n = num.0.len();
    let mut v: Vec<u32> = Vec::new();
    let mut i: usize = 0;
    while i < n
        invariant
            i <= n,
            n == num.0@.len(),
            (level as int) < num.0@.len(),
            num.0@[level as int] + by <= u32::MAX,
            v@ == num.0@.update(level as int, (num.0@[level as int] + by) as u32).take(i as int),
        decreases n - i,
    {
        let c = num.0[i];
        if i == level {
            v.push(c + by);
        } else {
            v.push(c);
        }
        proof {
            let full = num.0@.update(level as int, (num.0@[level as int] + by) as u32);
            assert(full.take(i + 1) =~= full.take(i as int).push(full[i as int]));
        }
        i = i + 1;
    }
    proof {
        let full = num.0@.update(level as int, (num.0@[level as int] + by) as u32);
        assert(full.take(n as int) =~= full);
    }
    SectionNumber(v)
}

/// Shifts, throughout the subtrees, every section number by `by` at exactly
/// the nesting depth `level`: used to rebase a freshly parsed group onto the
/// already-advanced running counter.
pub fn update_section_numbers(sections: &mut Vec<Link>, level: usize, by: u32)
    requires
        forall|i: int|
            0 <= i < old(sections)@.len() ==> #[trigger] bump_ok(
                old(sections)@[i],
                level as int,
                by,
            ),
    ensures
        final(sections)@.len() == old(sections)@.len(),
        forall|i: int|
            0 <= i < old(sections)@.len() ==> #[trigger] link_bumped(
                old(sections)@[i],
                final(sections)@[i],
                level as int,
                by,
            ),
    decreases old(sections)@,
{
    let ghost orig = sections@;
    let n = sections.len();
    let mut i: usize = 0;
    while i < n
        invariant
            orig == old(sections)@,
            n == sections@.len(),
            n == orig.len(),
            i <= n,
            forall|k: int| i <= k < n ==> sections@[k] == orig[k],
            forall|k: int|
                0 <= k < i ==> #[trigger] link_bumped(orig[k], sections@[k], level as int, by),
            forall|k: int| 0 <= k < n ==> #[trigger] bump_ok(orig[k], level as int, by),
        decreases n - i,
    {
        let mut link = sections.remove(i);
        proof {
            assert(link == orig[i as int]);
            assert(bump_ok(orig[i as int], level as int, by));
        }
        let sn = link.section_number.take();
        match sn {
            Some(num) => {
                let bumped = bump_component(num, level, by);
                link.section_number = Some(bumped);
            },
            None => {},
        }
        proof {
            assert(decreases_to!(orig => orig[i as int]));
            assert(decreases_to!(orig[i as int] => orig[i as int].nested_items@));
        }
        update_section_numbers(&mut link.nested_items, level, by);
        proof {
            assert(link.chapter@ == orig[i as int].chapter@);
            assert(link.nested_items@.len() == orig[i as int].nested_items@.len());
            assert(forall|j: int|
                0 <= j < orig[i as int].nested_items@.len() ==> link_bumped(
                    #[trigger] orig[i as int].nested_items@[j],
                    link.nested_items@[j],
                    level as int,
                    by,
                ));
            assert(link_bumped(orig[i as int], link, level as int, by));
        }
        let ghost done = link;
        sections.insert(i, link);
        proof {
            assert(sections@[i as int] == done);
            assert(link_bumped(orig[i as int], sections@[i as int], level as int, by));
        }
        i = i + 1;
    }
}

/// The index of the last link in a sibling list, or an error when the list
/// holds none.
pub fn get_last_link(links: &Vec<Link>) -> (r: Result<usize, String>)
    ensures
        match r {
            Ok(i) => links@.len() > 0 && i + 1 == links@.len(),
            Err(_) => links@.len() == 0,
        },
{
    if links.len() == 0 {
        Err(
            "Unable to get last link because the list of SummaryItems doesn't contain any Links".to_owned(),
        )
    } else {
        Ok(links.len() - 1)
    }
}

/// A structural violation of the summary grammar, with a 1-based line and
/// column computed from the byte offset of the offending event.
#[derive(Debug)]
pub struct ParseError {
    pub line: usize,
    pub column: usize,
    pub message: String,
}

/// The largest event count the parser accepts: it keeps every item count and
/// section-number component well inside `u32`.
pub const MAX_EVENTS: usize = 0x7FFF_FFFF;

/// How many times the byte occurs in the sequence.
pub open spec fn count_byte(s: Seq<u8>, b: u8) -> int
    decreases s.len(),
{
    if s.len() == 0 {
        0
    } else {
        count_byte(s.drop_last(), b) + if s.last() == b {
            1int
        } else {
            0int
        }
    }
}

/// A UTF-8 continuation byte: one that begins no character.
pub open spec fn is_utf8_continuation(b: u8) -> bool {
    0x80 <= b < 0xC0
}

/// How many characters the UTF-8 bytes spell: one per byte that begins a
/// character.
pub open spec fn utf8_char_count(s: Seq<u8>) -> int
    decreases s.len(),
{
    if s.len() == 0 {
        0
    } else {
        utf8_char_count(s.drop_last()) + if is_utf8_continuation(s.last()) {
            0int
        } else {
            1int
        }
    }
}

/// The index of the last occurrence of the byte, if any.
pub open spec fn spec_last_byte(s: Seq<u8>, b: u8) -> Option<int> {
    if exists|i: int| 0 <= i < s.len() && s[i] == b {
        Some(choose|i: int|
            0 <= i < s.len() && s[i] == b && forall|j: int| i < j < s.len() ==> s[j] != b)
    } else {
        None
    }
}

/// The kinds of a sequence of events, their offsets dropped.
pub open spec fn kinds(s: Seq<MdEvent>) -> Seq<MdEventKind> {
    s.map_values(|e: MdEvent| e.kind)
}

/// The link destination with every `%20` decoded to a space, scanning left
/// to right.
pub open spec fn spec_decode_space(s: Seq<char>) -> Seq<char>
    decreases s.len(),
{
    if s.len() < 3 {
        s
    } else if s[0] == '%' && s[1] == '2' && s[2] == '0' {
        seq![' '] + spec_decode_space(s.skip(3))
    } else {
        seq![s[0]] + spec_decode_space(s.skip(1))
    }
}

/// Decodes every `%20` in a link destination to a space.
pub fn decode_space(s: &str) -> (r: String)
    ensures
        r@ == spec_decode_space(s@),
{
    let n = s.unicode_len();
    let mut r = String::new();
    let mut i: usize = 0;
    proof {
        assert(s@.skip(0) =~= s@);
        assert(r@ + spec_decode_space(s@) =~= spec_decode_space(s@));
    }
    while i < n
        invariant
            i <= n,
            n == s@.len(),
            spec_decode_space(s@) == r@ + spec_decode_space(s@.skip(i as int)),
        decreases n - i,
    {
        if n >= 3 && i <= n - 3 && s.get_char(i) == '%' && s.get_char(i + 1) == '2' && s.get_char(
            i + 2,
        ) == '0' {
            push_char(&mut r, ' ');
            proof {
                assert(s@.skip(i as int).skip(3) =~= s@.skip(i + 3));
                assert(s@.skip(i as int)[0] == '%' && s@.skip(i as int)[1] == '2' && s@.skip(
                    i as int,
                )[2] == '0');
                assert(spec_decode_space(s@.skip(i as int)) == seq![' '] + spec_decode_space(
                    s@.skip(i + 3),
                ));
            }
            i = i + 3;
        } else {
            push_char(&mut r, s.get_char(i));
            proof {
                assert(s@.skip(i as int).skip(1) =~= s@.skip(i + 1));
                assert(s@.skip(i as int)[0] == s@[i as int]);
                if s@.skip(i as int).len() < 3 {
                    assert(spec_decode_space(s@.skip(i + 1)) =~= s@.skip(i + 1));
                    assert(spec_decode_space(s@.skip(i as int)) =~= seq![s@[i as int]]
                        + spec_decode_space(s@.skip(i + 1)));
                } else {
                    assert(spec_decode_space(s@.skip(i as int)) == seq![s@[i as int]]
                        + spec_decode_space(s@.skip(i + 1)));
                }
            }
            i = i + 1;
        }
        proof {
            assert(spec_decode_space(s@) == r@ + spec_decode_space(s@.skip(i as int)));
        }
    }
    proof {
        assert(s@.skip(n as int) =~= Seq::<char>::empty());
        assert(r@ =~= spec_decode_space(s@));
    }
    r
}

/// The start of a level-1 heading.
pub open spec fn is_h1_start(e: MdEvent) -> bool {
    e.kind matches MdEventKind::Start(MdTag::Heading(d)) && d == 1
}

/// The end of a level-1 heading.
pub open spec fn is_h1_end(e: MdEvent) -> bool {
    e.kind matches MdEventKind::End(MdTag::Heading(d)) && d == 1
}

/// The end of a link, whatever its destination.
pub open spec fn is_link_end(e: MdEvent) -> bool {
    e.kind matches MdEventKind::End(MdTag::Link(_))
}

/// The index of the first end of a link at or after `from`.
pub open spec fn first_link_end(evs: Seq<MdEvent>, from: int) -> Option<int> {
    if exists|i: int| from <= i < evs.len() && is_link_end(evs[i]) {
        Some(choose|i: int|
            from <= i < evs.len() && is_link_end(evs[i]) && forall|j: int|
                from <= j < i ==> !is_link_end(evs[j]))
    } else {
        None
    }
}

/// The index of the first end of a level-1 heading at or after `from`.
pub open spec fn first_h1_end(evs: Seq<MdEvent>, from: int) -> Option<int> {
    if exists|i: int| from <= i < evs.len() && is_h1_end(evs[i]) {
        Some(choose|i: int|
            from <= i < evs.len() && is_h1_end(evs[i]) && forall|j: int|
                from <= j < i ==> !is_h1_end(evs[j]))
    } else {
        None
    }
}

/// The chapters of a sequence as mathematical values.
pub open spec fn cviews(s: Seq<Chapter>) -> Seq<ChapterV> {
    s.map_values(|c: Chapter| c@)
}

/// The start of a list.
pub open spec fn is_list_start(e: MdEvent) -> bool {
    e.kind matches MdEventKind::Start(MdTag::List)
}

/// An event that ends the prefix region, and that may not follow the suffix
/// chapters: the start of a list or of a level-1 heading.
pub open spec fn is_affix_stop(e: MdEvent) -> bool {
    is_list_start(e) || is_h1_start(e)
}

/// The destination of a link-start event, if it is one.
pub open spec fn link_start_href(e: MdEvent) -> Option<Seq<char>> {
    match e.kind {
        MdEventKind::Start(MdTag::Link(h)) => Some(h@),
        _ => None,
    }
}

/// What the affix pass makes of a stream: each link becomes one chapter —
/// its de-styled span text and its decoded destination, a draft when the
/// destination is empty — everything else is skipped, and a list or heading
/// start ends the region: the prefix pass stops with that event still ahead,
/// the suffix pass fails, `None`. The second component is where the stream
/// stands afterwards.
#[verifier::opaque]
pub open spec fn affix_scan(evs: Seq<MdEvent>, is_prefix: bool, acc: Seq<ChapterV>) -> Option<
    (Seq<ChapterV>, Seq<MdEvent>),
>
    decreases evs.len(),
{
    if evs.len() == 0 {
        Some((acc, evs))
    } else if is_affix_stop(evs[0]) {
        if is_prefix {
            Some((acc, evs))
        } else {
            None
        }
    } else {
        match link_start_href(evs[0]) {
            Some(href) => {
                let end = match first_link_end(evs, 1) {
                    Some(j) => j,
                    None => evs.len() as int,
                };
                let chapter = ChapterV {
                    name: stringified(kinds(evs.subrange(1, end))),
                    location: if spec_decode_space(href).len() == 0 {
                        None
                    } else {
                        Some(spec_decode_space(href))
                    },
                };
                if 1 <= end < evs.len() {
                    affix_scan(evs.skip(end + 1), is_prefix, acc.push(chapter))
                } else {
                    Some((acc.push(chapter), Seq::empty()))
                }
            },
            None => affix_scan(evs.skip(1), is_prefix, acc),
        }
    }
}

/// What one list item yields: leading paragraph starts are skipped; then a
/// link start must follow, whose span becomes the chapter — anything else,
/// or a spent stream, is a failure. The second component is where the
/// stream stands afterwards.
#[verifier::opaque]
pub open spec fn item_scan(evs: Seq<MdEvent>) -> Option<(ChapterV, Seq<MdEvent>)>
    decreases evs.len(),
{
    if evs.len() == 0 {
        None
    } else if evs[0].kind matches MdEventKind::Start(MdTag::Paragraph) {
        item_scan(evs.skip(1))
    } else {
        match link_start_href(evs[0]) {
            Some(href) => {
                let end = match first_link_end(evs, 1) {
                    Some(j) => j,
                    None => evs.len() as int,
                };
                let chapter = ChapterV {
                    name: stringified(kinds(evs.subrange(1, end))),
                    location: if spec_decode_space(href).len() == 0 {
                        None
                    } else {
                        Some(spec_decode_space(href))
                    },
                };
                if 1 <= end < evs.len() {
                    Some((chapter, evs.skip(end + 1)))
                } else {
                    Some((chapter, Seq::empty()))
                }
            },
            None => None,
        }
    }
}

/// A table-of-contents subtree as a mathematical value: the chapter and,
/// in order, the subtrees nested under it.
pub struct LinkNode {
    pub chapter: ChapterV,
    pub nested: Seq<LinkNode>,
}

/// The subtree a link holds: its chapter, and its nested items' subtrees.
pub open spec fn link_node(l: Link) -> LinkNode
    decreases l,
{
    LinkNode { chapter: l.chapter@, nested: links_nodes(l.nested_items@) }
}

/// The subtrees of a forest of links, in order.
pub open spec fn links_nodes(ls: Seq<Link>) -> Seq<LinkNode>
    decreases ls,
{
    if ls.len() == 0 {
        Seq::empty()
    } else {
        seq![link_node(ls[0])] + links_nodes(ls.skip(1))
    }
}

/// `links_nodes` is the pointwise image of `link_node`.
proof fn lemma_links_nodes_index(ls: Seq<Link>)
    ensures
        links_nodes(ls).len() == ls.len(),
        forall|i: int| 0 <= i < ls.len() ==> links_nodes(ls)[i] == link_node(#[trigger] ls[i]),
    decreases ls.len(),
{
    if ls.len() == 0 {
    } else {
        lemma_links_nodes_index(ls.skip(1));
        assert forall|i: int| 0 <= i < ls.len() implies links_nodes(ls)[i] == link_node(
            #[trigger] ls[i],
        ) by {
            if i > 0 {
                assert(links_nodes(ls)[i] == links_nodes(ls.skip(1))[i - 1]);
                assert(ls.skip(1)[i - 1] == ls[i]);
            }
        }
    }
}

/// What one sibling group yields: each list item becomes one subtree via
/// `item_scan`; a further list becomes, subtree for subtree, the nested
/// items of the item parsed most recently, replacing what an earlier list
/// put there; anything else is skipped, and the group ends at a list end or
/// at the end of the stream. The result is the group's subtrees and the
/// stream after the group. The fuel only bounds the recursion: any fuel
/// beyond the stream's length gives the same answer.
#[verifier::opaque]
pub open spec fn group_scan(evs: Seq<MdEvent>, acc: Seq<LinkNode>, fuel: nat) -> Option<
    (Seq<LinkNode>, Seq<MdEvent>),
>
    decreases fuel,
{
    if fuel == 0 {
        None
    } else if evs.len() == 0 {
        Some((acc, evs))
    } else {
        match evs[0].kind {
            MdEventKind::Start(MdTag::Item) => match item_scan(evs.skip(1)) {
                Some(pr) => group_scan(
                    pr.1,
                    acc.push(LinkNode { chapter: pr.0, nested: Seq::empty() }),
                    (fuel - 1) as nat,
                ),
                None => None,
            },
            MdEventKind::Start(MdTag::List) => if acc.len() == 0 {
                group_scan(evs.skip(1), acc, (fuel - 1) as nat)
            } else {
                match group_scan(evs.skip(1), Seq::empty(), (fuel - 1) as nat) {
                    Some(pr) => group_scan(
                        pr.1,
                        acc.update(
                            acc.len() - 1,
                            LinkNode { chapter: acc.last().chapter, nested: pr.0 },
                        ),
                        (fuel - 1) as nat,
                    ),
                    None => None,
                }
            },
            MdEventKind::End(MdTag::List) => Some((acc, evs.skip(1))),
            _ => group_scan(evs.skip(1), acc, (fuel - 1) as nat),
        }
    }
}

/// A parsed item leaves a strictly shorter stream behind.
proof fn lemma_item_scan_rest(evs: Seq<MdEvent>)
    ensures
        item_scan(evs) matches Some(pr) ==> pr.1.len() < evs.len(),
    decreases evs.len(),
{
    reveal(item_scan);
    if evs.len() == 0 {
    } else if evs[0].kind matches MdEventKind::Start(MdTag::Paragraph) {
        lemma_item_scan_rest(evs.skip(1));
    } else {
    }
}

/// A scanned group leaves no more stream behind than it was given.
proof fn lemma_group_scan_rest(evs: Seq<MdEvent>, acc: Seq<LinkNode>, fuel: nat)
    ensures
        group_scan(evs, acc, fuel) matches Some(pr) ==> pr.1.len() <= evs.len(),
    decreases fuel,
{
    reveal(group_scan);
    if fuel == 0 || evs.len() == 0 {
    } else {
        match evs[0].kind {
            MdEventKind::Start(MdTag::Item) => {
                lemma_item_scan_rest(evs.skip(1));
                match item_scan(evs.skip(1)) {
                    Some(pr) => {
                        lemma_group_scan_rest(
                            pr.1,
                            acc.push(LinkNode { chapter: pr.0, nested: Seq::empty() }),
                            (fuel - 1) as nat,
                        );
                    },
                    None => {},
                }
            },
            MdEventKind::Start(MdTag::List) => {
                if acc.len() == 0 {
                    lemma_group_scan_rest(evs.skip(1), acc, (fuel - 1) as nat);
                } else {
                    lemma_group_scan_rest(evs.skip(1), Seq::empty(), (fuel - 1) as nat);
                    match group_scan(evs.skip(1), Seq::empty(), (fuel - 1) as nat) {
                        Some(pr) => {
                            lemma_group_scan_rest(
                                pr.1,
                                acc.update(
                                    acc.len() - 1,
                                    LinkNode { chapter: acc.last().chapter, nested: pr.0 },
                                ),
                                (fuel - 1) as nat,
                            );
                        },
                        None => {},
                    }
                }
            },
            MdEventKind::End(MdTag::List) => {},
            _ => {
                lemma_group_scan_rest(evs.skip(1), acc, (fuel - 1) as nat);
            },
        }
    }
}

/// Any fuel beyond the stream's length gives the group scan the same answer.
proof fn lemma_group_scan_fuel(evs: Seq<MdEvent>, acc: Seq<LinkNode>, f1: nat, f2: nat)
    requires
        f1 >= evs.len() + 1,
        f2 >= evs.len() + 1,
    ensures
        group_scan(evs, acc, f1) == group_scan(evs, acc, f2),
    decreases evs.len(),
{
    reveal(group_scan);
    if evs.len() == 0 {
    } else {
        match evs[0].kind {
            MdEventKind::Start(MdTag::Item) => {
                lemma_item_scan_rest(evs.skip(1));
                match item_scan(evs.skip(1)) {
                    Some(pr) => {
                        lemma_group_scan_fuel(
                            pr.1,
                            acc.push(LinkNode { chapter: pr.0, nested: Seq::empty() }),
                            (f1 - 1) as nat,
                            (f2 - 1) as nat,
                        );
                    },
                    None => {},
                }
            },
            MdEventKind::Start(MdTag::List) => {
                if acc.len() == 0 {
                    lemma_group_scan_fuel(evs.skip(1), acc, (f1 - 1) as nat, (f2 - 1) as nat);
                } else {
                    lemma_group_scan_fuel(
                        evs.skip(1),
                        Seq::empty(),
                        (f1 - 1) as nat,
                        (f2 - 1) as nat,
                    );
                    lemma_group_scan_rest(evs.skip(1), Seq::empty(), (f1 - 1) as nat);
                    match group_scan(evs.skip(1), Seq::empty(), (f1 - 1) as nat) {
                        Some(pr) => {
                            lemma_group_scan_fuel(
                                pr.1,
                                acc.update(
                                    acc.len() - 1,
                                    LinkNode { chapter: acc.last().chapter, nested: pr.0 },
                                ),
                                (f1 - 1) as nat,
                                (f2 - 1) as nat,
                            );
                        },
                        None => {},
                    }
                }
            },
            MdEventKind::End(MdTag::List) => {},
            _ => {
                lemma_group_scan_fuel(evs.skip(1), acc, (f1 - 1) as nat, (f2 - 1) as nat);
            },
        }
    }
}

/// Whether one event ends the tag `t`.
pub open spec fn ends_tag(e: MdEvent, t: MdTag) -> bool {
    e.kind matches MdEventKind::End(t2) && tag_matches(t2, t)
}

/// The index of the first end event whose tag matches `t`, at or after
/// `from`.
#[verifier::opaque]
pub open spec fn first_matching_end(evs: Seq<MdEvent>, from: int, t: MdTag) -> Option<int> {
    if exists|i: int| from <= i < evs.len() && ends_tag(#[trigger] evs[i], t) {
        Some(choose|i: int|
            from <= i < evs.len() && ends_tag(#[trigger] evs[i], t) && forall|k: int|
                from <= k < i ==> !ends_tag(#[trigger] evs[k], t))
    } else {
        None
    }
}

proof fn lemma_links_nodes_push(ls: Seq<Link>, l: Link)
    ensures
        links_nodes(ls.push(l)) == links_nodes(ls).push(link_node(l)),
{
    lemma_links_nodes_index(ls.push(l));
    lemma_links_nodes_index(ls);
    assert forall|k: int| 0 <= k < ls.len() + 1 implies links_nodes(ls.push(l))[k]
        == links_nodes(ls).push(link_node(l))[k] by {
        assert(links_nodes(ls.push(l))[k] == link_node(ls.push(l)[k]));
        if k < ls.len() {
            assert(ls.push(l)[k] == ls[k]);
            assert(links_nodes(ls)[k] == link_node(ls[k]));
        } else {
            assert(ls.push(l)[k] == l);
        }
    }
    assert(links_nodes(ls.push(l)) =~= links_nodes(ls).push(link_node(l)));
}

proof fn lemma_links_nodes_update(ls: Seq<Link>, i: int, l: Link)
    requires
        0 <= i < ls.len(),
    ensures
        links_nodes(ls.update(i, l)) == links_nodes(ls).update(i, link_node(l)),
{
    lemma_links_nodes_index(ls.update(i, l));
    lemma_links_nodes_index(ls);
    assert forall|k: int| 0 <= k < ls.len() implies links_nodes(ls.update(i, l))[k]
        == links_nodes(ls).update(i, link_node(l))[k] by {
        assert(links_nodes(ls.update(i, l))[k] == link_node(ls.update(i, l)[k]));
        if k != i {
            assert(ls.update(i, l)[k] == ls[k]);
            assert(links_nodes(ls)[k] == link_node(ls[k]));
        } else {
            assert(ls.update(i, l)[k] == l);
        }
    }
    assert(links_nodes(ls.update(i, l)) =~= links_nodes(ls).update(i, link_node(l)));
}

proof fn lemma_links_nodes_concat(a: Seq<Link>, b: Seq<Link>)
    ensures
        links_nodes(a + b) == links_nodes(a) + links_nodes(b),
{
    lemma_links_nodes_index(a + b);
    lemma_links_nodes_index(a);
    lemma_links_nodes_index(b);
    assert forall|k: int| 0 <= k < a.len() + b.len() implies links_nodes(a + b)[k]
        == (links_nodes(a) + links_nodes(b))[k] by {
        assert(links_nodes(a + b)[k] == link_node((a + b)[k]));
        if k < a.len() {
            assert((a + b)[k] == a[k]);
            assert(links_nodes(a)[k] == link_node(a[k]));
        } else {
            assert((a + b)[k] == b[k - a.len()]);
            assert(links_nodes(b)[k - a.len()] == link_node(b[k - a.len()]));
        }
    }
    assert(links_nodes(a + b) =~= links_nodes(a) + links_nodes(b));
}

/// The subtree a link holds is kept when it is renumbered.
proof fn lemma_bumped_node(a: Link, b: Link, level: int, by: u32)
    requires
        link_bumped(a, b, level, by),
    ensures
        link_node(b) == link_node(a),
    decreases a,
{
    lemma_bumped_nodes(a.nested_items@, b.nested_items@, level, by);
}

/// The subtrees of siblings are kept when the forest is renumbered.
proof fn lemma_bumped_nodes(aa: Seq<Link>, bb: Seq<Link>, level: int, by: u32)
    requires
        aa.len() == bb.len(),
        forall|i: int| 0 <= i < aa.len() ==> link_bumped(#[trigger] aa[i], bb[i], level, by),
    ensures
        links_nodes(bb) == links_nodes(aa),
    decreases aa,
{
    if aa.len() == 0 {
        assert(links_nodes(bb) =~= links_nodes(aa));
    } else {
        assert(link_bumped(aa[0], bb[0], level, by));
        lemma_bumped_node(aa[0], bb[0], level, by);
        assert(aa.skip(1).len() == bb.skip(1).len());
        assert forall|i: int| 0 <= i < aa.skip(1).len() implies link_bumped(
            #[trigger] aa.skip(1)[i],
            bb.skip(1)[i],
            level,
            by,
        ) by {
            assert(aa.skip(1)[i] == aa[i + 1]);
            assert(bb.skip(1)[i] == bb[i + 1]);
        }
        lemma_bumped_nodes(aa.skip(1), bb.skip(1), level, by);
        assert(links_nodes(bb) =~= links_nodes(aa));
    }
}

/// A freshly parsed group, numbered from one, has room to be rebased.
proof fn lemma_group_bump_ok(bunch: Seq<Link>, root: u32)
    requires
        links_numbered(bunch, Seq::empty(), 1u32),
        bunch.len() + root <= u32::MAX,
    ensures
        forall|i: int| 0 <= i < bunch.len() ==> bump_ok(#[trigger] bunch[i], 0, root),
{
    assert forall|i: int| 0 <= i < bunch.len() implies bump_ok(#[trigger] bunch[i], 0, root) by {
        let pfx = Seq::<u32>::empty().push((1 + i) as u32);
        assert(link_numbered(bunch[i], pfx));
        assert(pfx[0] == (1 + i) as u32);
        lemma_numbered_bump_ok(bunch[i], pfx, root);
    }
}

/// Rebasing a group numbered from one renumbers it from the counter.
proof fn lemma_group_rebased(pre: Seq<Link>, post: Seq<Link>, root: u32)
    requires
        links_numbered(pre, Seq::empty(), 1u32),
        pre.len() + root <= u32::MAX,
        post.len() == pre.len(),
        forall|i: int| 0 <= i < pre.len() ==> link_bumped(#[trigger] pre[i], post[i], 0, root),
    ensures
        links_numbered(post, Seq::empty(), (root + 1) as u32),
{
    assert forall|i: int| 0 <= i < post.len() implies link_numbered(
        #[trigger] post[i],
        Seq::<u32>::empty().push(((root + 1) as u32 + i) as u32),
    ) by {
        let pfx = Seq::<u32>::empty().push((1 + i) as u32);
        assert(link_numbered(pre[i], pfx));
        assert(link_bumped(pre[i], post[i], 0, root));
        lemma_bumped_numbered(pre[i], post[i], pfx, root);
        assert(pfx.update(0, (pfx[0] + root) as u32) =~= Seq::<u32>::empty().push(
            ((root + 1) as u32 + i) as u32,
        ));
    }
}

/// What one part's numbered section yields: sibling groups accumulate across
/// horizontal rules and comments; a heading or (after the opening one) a
/// paragraph ends the part with that event still ahead; the span of any
/// other tag is skipped as a balanced unit. The result is the part's
/// subtrees and the stream after the part. Any fuel beyond the stream's
/// length gives the same answer.
#[verifier::opaque]
pub open spec fn numbered_scan(evs: Seq<MdEvent>, first: bool, acc: Seq<LinkNode>, fuel: nat) -> Option<
    (Seq<LinkNode>, Seq<MdEvent>),
>
    decreases fuel,
{
    if fuel == 0 {
        None
    } else if evs.len() == 0 {
        Some((acc, evs))
    } else {
        match evs[0].kind {
            MdEventKind::Start(MdTag::Paragraph) => if first {
                numbered_scan(evs.skip(1), false, acc, (fuel - 1) as nat)
            } else {
                Some((acc, evs))
            },
            MdEventKind::Start(MdTag::Heading(d)) => if d == 1 {
                Some((acc, evs))
            } else {
                match first_matching_end(evs.skip(1), 0, MdTag::Heading(d)) {
                    Some(j) => if 0 <= j < evs.skip(1).len() {
                        numbered_scan(evs.skip(1).skip(j + 1), false, acc, (fuel - 1) as nat)
                    } else {
                        Some((acc, Seq::empty()))
                    },
                    None => Some((acc, Seq::empty())),
                }
            },
            MdEventKind::Start(MdTag::List) => match group_scan(evs, Seq::empty(), fuel) {
                Some(pr) => numbered_scan(pr.1, false, acc + pr.0, (fuel - 1) as nat),
                None => None,
            },
            MdEventKind::Start(t) => match first_matching_end(evs.skip(1), 0, t) {
                Some(j) => if 0 <= j < evs.skip(1).len() {
                    numbered_scan(evs.skip(1).skip(j + 1), false, acc, (fuel - 1) as nat)
                } else {
                    Some((acc, Seq::empty()))
                },
                None => Some((acc, Seq::empty())),
            },
            _ => numbered_scan(evs.skip(1), false, acc, (fuel - 1) as nat),
        }
    }
}

/// What `first_link_end` returns really is the first link end: a least
/// witness exists whenever any witness does.
proof fn lemma_first_link_end_props(evs: Seq<MdEvent>, from: int)
    requires
        0 <= from <= evs.len(),
    ensures
        match first_link_end(evs, from) {
            Some(j) => from <= j < evs.len() && is_link_end(evs[j]) && forall|t: int|
                from <= t < j ==> !is_link_end(evs[t]),
            None => forall|t: int| from <= t < evs.len() ==> !is_link_end(evs[t]),
        },
    decreases evs.len() - from,
{
    if exists|i: int| from <= i < evs.len() && is_link_end(evs[i]) {
        if is_link_end(evs[from]) {
            assert(from <= from < evs.len() && is_link_end(evs[from]) && forall|t: int|
                from <= t < from ==> !is_link_end(evs[t]));
            let w = choose|i: int|
                from <= i < evs.len() && is_link_end(evs[i]) && forall|t: int|
                    from <= t < i ==> !is_link_end(evs[t]);
            assert(!(w < from));
            assert(!(from < w));
        } else {
            assert(from < evs.len());
            lemma_first_link_end_props(evs, from + 1);
            assert(exists|i: int| from + 1 <= i < evs.len() && is_link_end(evs[i])) by {
                let k = choose|i: int| from <= i < evs.len() && is_link_end(evs[i]);
                assert(k != from);
                assert(from + 1 <= k < evs.len() && is_link_end(evs[k]));
            }
            let j1 = first_link_end(evs, from + 1)->Some_0;
            assert(from <= j1 < evs.len() && is_link_end(evs[j1]) && forall|t: int|
                from <= t < j1 ==> !is_link_end(evs[t]));
            let w = choose|i: int|
                from <= i < evs.len() && is_link_end(evs[i]) && forall|t: int|
                    from <= t < i ==> !is_link_end(evs[t]);
            assert(!(w < j1));
            assert(!(j1 < w));
        }
    }
}

/// Two streams that agree from their scan points on find the first link end
/// at matching offsets.
proof fn lemma_first_link_end_align(a: Seq<MdEvent>, fa: int, b: Seq<MdEvent>, fb: int)
    requires
        0 <= fa <= a.len(),
        0 <= fb <= b.len(),
        a.skip(fa) == b.skip(fb),
    ensures
        match first_link_end(a, fa) {
            Some(j) => first_link_end(b, fb) == Some(j - fa + fb),
            None => first_link_end(b, fb) is None,
        },
{
    assert(a.skip(fa).len() == a.len() - fa);
    assert(b.skip(fb).len() == b.len() - fb);
    assert(a.skip(fa).len() == b.skip(fb).len());
    assert(a.len() - fa == b.len() - fb);
    assert forall|t: int| 0 <= t < a.len() - fa implies a[fa + t] == #[trigger] b[fb + t] by {
        assert(a.skip(fa)[t] == a[fa + t]);
        assert(b.skip(fb)[t] == b[fb + t]);
    }
    lemma_first_link_end_props(a, fa);
    lemma_first_link_end_props(b, fb);
    match first_link_end(a, fa) {
        Some(j) => {
            let t0 = j - fa;
            assert(a[fa + t0] == b[fb + t0]);
            assert(a[fa + t0] == a[j]);
            assert(is_link_end(b[fb + t0]));
            match first_link_end(b, fb) {
                Some(w) => {
                    assert(!(w < fb + t0)) by {
                        if w < fb + t0 {
                            let u = w - fb;
                            assert(a[fa + u] == b[fb + u]);
                            assert(b[w] == b[fb + u]);
                            assert(!is_link_end(a[fa + u]));
                        }
                    }
                    assert(!(fb + t0 < w)) by {
                        if fb + t0 < w {
                            assert(!is_link_end(b[fb + t0]));
                        }
                    }
                    assert(w == j - fa + fb);
                },
                None => {
                    assert(!is_link_end(b[fb + t0]));
                    assert(false);
                },
            }
        },
        None => {
            match first_link_end(b, fb) {
                Some(w) => {
                    let u = w - fb;
                    assert(a[fa + u] == b[fb + u]);
                    assert(b[w] == b[fb + u]);
                    assert(is_link_end(a[fa + u]));
                    assert(!is_link_end(a[fa + u]));
                },
                None => {},
            }
        },
    }
}

/// A scanned part leaves no more stream behind than it was given.
proof fn lemma_numbered_scan_rest(evs: Seq<MdEvent>, first: bool, acc: Seq<LinkNode>, fuel: nat)
    ensures
        numbered_scan(evs, first, acc, fuel) matches Some(pr) ==> pr.1.len() <= evs.len(),
    decreases fuel,
{
    reveal(numbered_scan);
    if fuel == 0 || evs.len() == 0 {
    } else {
        match evs[0].kind {
            MdEventKind::Start(MdTag::Paragraph) => {
                if first {
                    lemma_numbered_scan_rest(evs.skip(1), false, acc, (fuel - 1) as nat);
                }
            },
            MdEventKind::Start(MdTag::Heading(d)) => {
                if d != 1 {
                    match first_matching_end(evs.skip(1), 0, MdTag::Heading(d)) {
                        Some(j) => {
                            if 0 <= j < evs.skip(1).len() {
                                lemma_numbered_scan_rest(
                                    evs.skip(1).skip(j + 1),
                                    false,
                                    acc,
                                    (fuel - 1) as nat,
                                );
                            }
                        },
                        None => {},
                    }
                }
            },
            MdEventKind::Start(MdTag::List) => {
                lemma_group_scan_rest(evs, Seq::empty(), fuel);
                match group_scan(evs, Seq::empty(), fuel) {
                    Some(pr) => {
                        lemma_numbered_scan_rest(pr.1, false, acc + pr.0, (fuel - 1) as nat);
                    },
                    None => {},
                }
            },
            MdEventKind::Start(t) => {
                match first_matching_end(evs.skip(1), 0, t) {
                    Some(j) => {
                        if 0 <= j < evs.skip(1).len() {
                            lemma_numbered_scan_rest(
                                evs.skip(1).skip(j + 1),
                                false,
                                acc,
                                (fuel - 1) as nat,
                            );
                        }
                    },
                    None => {},
                }
            },
            _ => {
                lemma_numbered_scan_rest(evs.skip(1), false, acc, (fuel - 1) as nat);
            },
        }
    }
}

/// Any fuel beyond the stream's length gives the part scan the same answer.
proof fn lemma_numbered_scan_fuel(
    evs: Seq<MdEvent>,
    first: bool,
    acc: Seq<LinkNode>,
    f1: nat,
    f2: nat,
)
    requires
        f1 >= evs.len() + 1,
        f2 >= evs.len() + 1,
    ensures
        numbered_scan(evs, first, acc, f1) == numbered_scan(evs, first, acc, f2),
    decreases evs.len(),
{
    reveal(numbered_scan);
    if evs.len() == 0 {
    } else {
        match evs[0].kind {
            MdEventKind::Start(MdTag::Paragraph) => {
                if first {
                    lemma_numbered_scan_fuel(evs.skip(1), false, acc, (f1 - 1) as nat, (f2 - 1) as nat);
                }
            },
            MdEventKind::Start(MdTag::Heading(d)) => {
                if d != 1 {
                    match first_matching_end(evs.skip(1), 0, MdTag::Heading(d)) {
                        Some(j) => {
                            if 0 <= j < evs.skip(1).len() {
                                assert(evs.skip(1).skip(j + 1).len() < evs.len());
                                lemma_numbered_scan_fuel(
                                    evs.skip(1).skip(j + 1),
                                    false,
                                    acc,
                                    (f1 - 1) as nat,
                                    (f2 - 1) as nat,
                                );
                            }
                        },
                        None => {},
                    }
                }
            },
            MdEventKind::Start(MdTag::List) => {
                lemma_group_scan_fuel(evs, Seq::empty(), f1, f2);
                lemma_group_scan_rest(evs, Seq::empty(), f1);
                match group_scan(evs, Seq::empty(), f1) {
                    Some(pr) => {
                        reveal(group_scan);
                        assert(group_scan(evs, Seq::empty(), f1) == group_scan(
                            evs.skip(1),
                            Seq::empty(),
                            (f1 - 1) as nat,
                        ));
                        lemma_group_scan_rest(evs.skip(1), Seq::empty(), (f1 - 1) as nat);
                        assert(pr.1.len() < evs.len());
                        lemma_numbered_scan_fuel(
                            pr.1,
                            false,
                            acc + pr.0,
                            (f1 - 1) as nat,
                            (f2 - 1) as nat,
                        );
                    },
                    None => {},
                }
            },
            MdEventKind::Start(t) => {
                match first_matching_end(evs.skip(1), 0, t) {
                    Some(j) => {
                        if 0 <= j < evs.skip(1).len() {
                            assert(evs.skip(1).skip(j + 1).len() < evs.len());
                            lemma_numbered_scan_fuel(
                                evs.skip(1).skip(j + 1),
                                false,
                                acc,
                                (f1 - 1) as nat,
                                (f2 - 1) as nat,
                            );
                        }
                    },
                    None => {},
                }
            },
            _ => {
                lemma_numbered_scan_fuel(evs.skip(1), false, acc, (f1 - 1) as nat, (f2 - 1) as nat);
            },
        }
    }
}

/// What `first_h1_end` returns really is the first heading end: a least
/// witness exists whenever any witness does.
proof fn lemma_first_h1_end_props(evs: Seq<MdEvent>, from: int)
    requires
        0 <= from <= evs.len(),
    ensures
        match first_h1_end(evs, from) {
            Some(j) => from <= j < evs.len() && is_h1_end(evs[j]) && forall|t: int|
                from <= t < j ==> !is_h1_end(evs[t]),
            None => forall|t: int| from <= t < evs.len() ==> !is_h1_end(evs[t]),
        },
    decreases evs.len() - from,
{
    if exists|i: int| from <= i < evs.len() && is_h1_end(evs[i]) {
        if is_h1_end(evs[from]) {
            assert(from <= from < evs.len() && is_h1_end(evs[from]) && forall|t: int|
                from <= t < from ==> !is_h1_end(evs[t]));
            let w = choose|i: int|
                from <= i < evs.len() && is_h1_end(evs[i]) && forall|t: int|
                    from <= t < i ==> !is_h1_end(evs[t]);
            assert(!(w < from));
            assert(!(from < w));
        } else {
            assert(from < evs.len());
            lemma_first_h1_end_props(evs, from + 1);
            assert(exists|i: int| from + 1 <= i < evs.len() && is_h1_end(evs[i])) by {
                let k = choose|i: int| from <= i < evs.len() && is_h1_end(evs[i]);
                assert(k != from);
                assert(from + 1 <= k < evs.len() && is_h1_end(evs[k]));
            }
            let j1 = first_h1_end(evs, from + 1)->Some_0;
            assert(from <= j1 < evs.len() && is_h1_end(evs[j1]) && forall|t: int|
                from <= t < j1 ==> !is_h1_end(evs[t]));
            let w = choose|i: int|
                from <= i < evs.len() && is_h1_end(evs[i]) && forall|t: int|
                    from <= t < i ==> !is_h1_end(evs[t]);
            assert(!(w < j1));
            assert(!(j1 < w));
        }
    }
}

/// Two streams that agree from their scan points on find the first heading
/// end at matching offsets.
proof fn lemma_first_h1_end_align(a: Seq<MdEvent>, fa: int, b: Seq<MdEvent>, fb: int)
    requires
        0 <= fa <= a.len(),
        0 <= fb <= b.len(),
        a.skip(fa) == b.skip(fb),
    ensures
        match first_h1_end(a, fa) {
            Some(j) => first_h1_end(b, fb) == Some(j - fa + fb),
            None => first_h1_end(b, fb) is None,
        },
{
    assert(a.skip(fa).len() == a.len() - fa);
    assert(b.skip(fb).len() == b.len() - fb);
    assert(a.skip(fa).len() == b.skip(fb).len());
    assert(a.len() - fa == b.len() - fb);
    assert forall|t: int| 0 <= t < a.len() - fa implies a[fa + t] == #[trigger] b[fb + t] by {
        assert(a.skip(fa)[t] == a[fa + t]);
        assert(b.skip(fb)[t] == b[fb + t]);
    }
    lemma_first_h1_end_props(a, fa);
    lemma_first_h1_end_props(b, fb);
    match first_h1_end(a, fa) {
        Some(j) => {
            let t0 = j - fa;
            assert(a[fa + t0] == b[fb + t0]);
            assert(a[fa + t0] == a[j]);
            assert(is_h1_end(b[fb + t0]));
            match first_h1_end(b, fb) {
                Some(w) => {
                    assert(!(w < fb + t0)) by {
                        if w < fb + t0 {
                            let u = w - fb;
                            assert(a[fa + u] == b[fb + u]);
                            assert(b[w] == b[fb + u]);
                            assert(!is_h1_end(a[fa + u]));
                        }
                    }
                    assert(!(fb + t0 < w)) by {
                        if fb + t0 < w {
                            assert(!is_h1_end(b[fb + t0]));
                        }
                    }
                    assert(w == j - fa + fb);
                },
                None => {
                    assert(!is_h1_end(b[fb + t0]));
                    assert(false);
                },
            }
        },
        None => {
            match first_h1_end(b, fb) {
                Some(w) => {
                    let u = w - fb;
                    assert(a[fa + u] == b[fb + u]);
                    assert(b[w] == b[fb + u]);
                    assert(is_h1_end(a[fa + u]));
                    assert(!is_h1_end(a[fa + u]));
                },
                None => {},
            }
        },
    }
}

/// What the whole numbered section yields: parts accumulate, each an
/// optional part heading (its text discarded) followed by that part's
/// subtrees, the running counter never resetting; a paragraph ends the
/// section with that event still ahead. The result is every numbered
/// chapter's subtree, in order, and the stream after the section. Any fuel
/// beyond the stream's length gives the same answer.
#[verifier::opaque]
pub open spec fn parts_scan(evs: Seq<MdEvent>, acc: Seq<LinkNode>, fuel: nat) -> Option<
    (Seq<LinkNode>, Seq<MdEvent>),
>
    decreases fuel,
{
    if fuel == 0 {
        None
    } else if evs.len() == 0 {
        Some((acc, evs))
    } else if evs[0].kind matches MdEventKind::Start(MdTag::Paragraph) {
        Some((acc, evs))
    } else if is_h1_start(evs[0]) {
        match first_h1_end(evs, 1) {
            Some(j) => if 1 <= j < evs.len() {
                parts_scan(evs.skip(j + 1), acc, (fuel - 1) as nat)
            } else {
                Some((acc, Seq::empty()))
            },
            None => Some((acc, Seq::empty())),
        }
    } else {
        match numbered_scan(evs, true, Seq::empty(), fuel) {
            Some(pr) => parts_scan(pr.1, acc + pr.0, (fuel - 1) as nat),
            None => None,
        }
    }
}

/// Full view equality of two links: same chapter, same number, same tree.
pub open spec fn link_view_eq(a: Link, b: Link) -> bool
    decreases a,
{
    &&& a.chapter@ == b.chapter@
    &&& match (a.section_number, b.section_number) {
        (Some(n), Some(m)) => n.0@ == m.0@,
        (None, None) => true,
        _ => false,
    }
    &&& a.nested_items@.len() == b.nested_items@.len()
    &&& forall|i: int|
        0 <= i < a.nested_items@.len() ==> link_view_eq(
            #[trigger] a.nested_items@[i],
            b.nested_items@[i],
        )
}

/// A subtree's chapters-and-shape image together with its numbering
/// determine it completely.
proof fn lemma_node_numbering_determine(a: Link, b: Link, prefix: Seq<u32>)
    requires
        link_node(a) == link_node(b),
        link_numbered(a, prefix),
        link_numbered(b, prefix),
    ensures
        link_view_eq(a, b),
    decreases a,
{
    lemma_links_nodes_index(a.nested_items@);
    lemma_links_nodes_index(b.nested_items@);
    assert(links_nodes(a.nested_items@) == links_nodes(b.nested_items@));
    assert(a.nested_items@.len() == b.nested_items@.len());
    assert forall|i: int| 0 <= i < a.nested_items@.len() implies link_view_eq(
        #[trigger] a.nested_items@[i],
        b.nested_items@[i],
    ) by {
        assert(links_nodes(a.nested_items@)[i] == link_node(a.nested_items@[i]));
        assert(links_nodes(b.nested_items@)[i] == link_node(b.nested_items@[i]));
        assert(link_numbered(a.nested_items@[i], prefix.push((i + 1) as u32)));
        assert(link_numbered(b.nested_items@[i], prefix.push((i + 1) as u32)));
        lemma_node_numbering_determine(
            a.nested_items@[i],
            b.nested_items@[i],
            prefix.push((i + 1) as u32),
        );
    }
}

/// Parsing is deterministic in everything the contracts pin: two correctly
/// numbered forests with one chapters-and-shape image are equal, view for
/// view — so two parses of one event stream agree on the whole numbered
/// tree, not merely on its chapters.
pub proof fn lemma_numbered_trees_determined(a: Seq<Link>, b: Seq<Link>, start: u32)
    requires
        links_nodes(a) == links_nodes(b),
        links_numbered(a, Seq::empty(), start),
        links_numbered(b, Seq::empty(), start),
    ensures
        a.len() == b.len(),
        forall|i: int| 0 <= i < a.len() ==> link_view_eq(#[trigger] a[i], b[i]),
{
    lemma_links_nodes_index(a);
    lemma_links_nodes_index(b);
    assert forall|i: int| 0 <= i < a.len() implies link_view_eq(#[trigger] a[i], b[i]) by {
        assert(links_nodes(a)[i] == link_node(a[i]));
        assert(links_nodes(b)[i] == link_node(b[i]));
        assert(link_numbered(a[i], Seq::<u32>::empty().push((start + i) as u32)));
        assert(link_numbered(b[i], Seq::<u32>::empty().push((start + i) as u32)));
        lemma_node_numbering_determine(a[i], b[i], Seq::<u32>::empty().push((start + i) as u32));
    }
}

/// Everything the parser makes of an event stream, staged: the title span,
/// the prefix chapters, the numbered section's subtrees, then the suffix
/// chapters; `None` at the first stage that fails. The title must be a
/// leading level-1 heading; the stages hand the stream on to one another.
pub open spec fn summary_scan(evs: Seq<MdEvent>) -> Option<
    (Seq<char>, Seq<ChapterV>, Seq<LinkNode>, Seq<ChapterV>),
> {
    if !(evs.len() > 0 && is_h1_start(evs[0])) {
        None
    } else {
        let end = match first_h1_end(evs, 1) {
            Some(i) => i,
            None => evs.len() as int,
        };
        let after_title = match first_h1_end(evs, 1) {
            Some(i) => i + 1,
            None => evs.len() as int,
        };
        let title = stringified(kinds(evs.subrange(1, end)));
        match affix_scan(evs.skip(after_title), true, Seq::empty()) {
            Some(pr) => match parts_scan(pr.1, Seq::empty(), (pr.1.len() + 1) as nat) {
                Some(pp) => match affix_scan(pp.1, false, Seq::empty()) {
                    Some(sr) => Some((title, pr.0, pp.0, sr.0)),
                    None => None,
                },
                None => None,
            },
            None => None,
        }
    }
}

/// A recursive-descent parser for a summary document. It consumes the event
/// stream the external tokenizer produced, one event of lookahead deep.
pub struct SummaryParser {
    /// The source text in bytes, for error locations.
    pub src: Vec<u8>,
    /// The markdown events of the source text.
    pub events: Vec<MdEvent>,
    /// The position of the next unread event.
    pub pos: usize,
    /// The byte offset of the event most recently read from the stream.
    pub offset: usize,
    /// An event put back onto the stream; handed out again before `pos` moves.
    pub back: Option<MdEvent>,
}

impl SummaryParser {
    /// The stream cursor is sound and the event count leaves counters room.
    pub open spec fn wf(&self) -> bool {
        &&& self.pos <= self.events@.len()
        &&& self.events@.len() <= MAX_EVENTS
    }

    /// How many events are still to be read, the put-back one included.
    pub open spec fn remaining(&self) -> int {
        self.events@.len() - self.pos + if self.back is Some {
            1int
        } else {
            0int
        }
    }

    /// The event the next `next_event` call hands out.
    pub open spec fn peek(&self) -> Option<MdEvent> {
        match self.back {
            Some(e) => Some(e),
            None => if self.pos < self.events@.len() {
                Some(self.events@[self.pos as int])
            } else {
                None
            },
        }
    }

    /// The events still to be read, the put-back one first.
    pub open spec fn rest(&self) -> Seq<MdEvent> {
        match self.back {
            Some(e) => seq![e] + self.events@.skip(self.pos as int),
            None => self.events@.skip(self.pos as int),
        }
    }

    /// The stream position right after the peeked event.
    pub open spec fn after_peek_pos(&self) -> int {
        if self.back is Some {
            self.pos as int
        } else {
            self.pos + 1
        }
    }

    /// The source text and event stream are those of `other`.
    pub open spec fn same_stream(&self, other: &Self) -> bool {
        &&& self.events@ == other.events@
        &&& self.src@ == other.src@
    }

    /// Builds a parser over the events of the text.
    pub fn new(text: &str) -> (p: SummaryParser)
        ensures
            p.pos == 0,
            p.offset == 0,
            p.back is None,
            p.events@ == crate::events::events_of(text@),
            p.src@ == text.spec_bytes(),
    {
        SummaryParser {
            src: text.as_bytes_vec(),
            events: tokenize(text),
            pos: 0,
            offset: 0,
            back: None,
        }
    }

    /// Hands out the next event: the put-back one if there is one, else the
    /// next from the stream, remembering that event's offset.
    pub fn next_event(&mut self) -> (r: Option<MdEvent>)
        requires
            old(self).wf(),
        ensures
            final(self).wf(),
            final(self).same_stream(old(self)),
            final(self).back is None,
            r == old(self).peek(),
            r is Some ==> final(self).remaining() == old(self).remaining() - 1 && final(self).pos
                == old(self).after_peek_pos(),
            r is None ==> old(self).remaining() == 0 && final(self).remaining() == 0,
            r matches Some(e) ==> old(self).rest().len() > 0 && e == old(self).rest()[0]
                && final(self).rest() == old(self).rest().skip(1),
            r is None ==> old(self).rest().len() == 0 && final(self).rest().len() == 0,
            old(self).back is Some ==> final(self).offset == old(self).offset,
    {
        let b = self.back.take();
        match b {
            Some(e) => {
                proof {
                    assert(old(self).rest()[0] == e);
                    assert(self.rest() =~= old(self).rest().skip(1));
                }
                Some(e)
            },
            None => {
                if self.pos < self.events.len() {
                    let ev = self.events[self.pos].clone();
                    self.offset = ev.off;
                    self.pos = self.pos + 1;
                    proof {
                        assert(old(self).rest()[0] == ev);
                        assert(self.rest() =~= old(self).rest().skip(1));
                    }
                    Some(ev)
                } else {
                    proof {
                        assert(old(self).rest().len() == 0);
                        assert(self.rest().len() == 0);
                    }
                    None
                }
            },
        }
    }

    /// Puts an event back onto the stream.
    pub fn put_back(&mut self, ev: MdEvent)
        requires
            old(self).wf(),
            old(self).back is None,
        ensures
            final(self).wf(),
            final(self).same_stream(old(self)),
            final(self).back == Some(ev),
            final(self).pos == old(self).pos,
            final(self).offset == old(self).offset,
            final(self).remaining() == old(self).remaining() + 1,
            final(self).rest() == seq![ev] + old(self).rest(),
    {
        self.back = Some(ev);
        proof {
            assert(self.rest() =~= seq![ev] + old(self).rest());
        }
    }

    /// The 1-based line and column of the current offset: lines are counted
    /// by the newlines before it, and the column counts the characters from
    /// the last newline, that newline included.
    pub fn current_location(&self) -> (r: (usize, usize))
        ensures
            ({
                let off = if self.offset <= self.src@.len() {
                    self.offset as int
                } else {
                    self.src@.len() as int
                };
                let prev = self.src@.take(off);
                let nl = count_byte(prev, 10);
                let start = match spec_last_byte(prev, 10) {
                    Some(i) => i,
                    None => 0,
                };
                &&& r.0 == if nl < usize::MAX {
                    nl + 1
                } else {
                    nl
                }
                &&& r.1 == utf8_char_count(self.src@.subrange(start, off))
            }),
    {
        let off = if self.offset <= self.src.len() {
            self.offset
        } else {
            self.src.len()
        };
        let prev = slice_subrange(self.src.as_slice(), 0, off);
        let mut nl: usize = 0;
        let mut i: usize = 0;
        while i < off
            invariant
                i <= off,
                off <= self.src@.len(),
                off == prev@.len(),
                prev@ == self.src@.take(off as int),
                nl == count_byte(prev@.take(i as int), 10),
                nl <= i,
            decreases off - i,
        {
            proof {
                assert(prev@.take(i + 1).drop_last() =~= prev@.take(i as int));
                assert(prev@.take(i + 1).last() == prev@[i as int]);
            }
            if prev[i] == 10 {
                nl = nl + 1;
            }
            i = i + 1;
        }
        proof {
            assert(prev@.take(off as int) =~= prev@);
        }
        let line = if nl < usize::MAX {
            nl + 1
        } else {
            nl
        };
        let start = match memchr::memrchr(10, prev) {
            Some(i) => i,
            None => 0,
        };
        proof {
            match spec_last_byte(prev@, 10) {
                Some(w) => {
                    assert(0 <= w < prev@.len() && prev@[w] == 10);
                },
                None => {},
            }
        }
        let mut col: usize = 0;
        let mut j: usize = start;
        while j < off
            invariant
                start <= j <= off,
                off <= self.src@.len(),
                off == prev@.len(),
                prev@ == self.src@.take(off as int),
                start <= off,
                col == utf8_char_count(self.src@.subrange(start as int, j as int)),
                col <= j - start,
            decreases off - j,
        {
            proof {
                assert(self.src@.subrange(start as int, j + 1).drop_last() =~= self.src@.subrange(
                    start as int,
                    j as int,
                ));
                assert(self.src@.subrange(start as int, j + 1).last() == prev@[j as int]);
            }
            let b = prev[j];
            if !(0x80 <= b && b < 0xC0) {
                col = col + 1;
            }
            j = j + 1;
        }
        (line, col)
    }

    /// A parse error carrying the current location and the message.
    fn parse_error(&self, msg: &str) -> (e: ParseError)
        ensures
            e.message@ == msg@,
            ({
                let off = if self.offset <= self.src@.len() {
                    self.offset as int
                } else {
                    self.src@.len() as int
                };
                let prev = self.src@.take(off);
                let nl = count_byte(prev, 10);
                let start = match spec_last_byte(prev, 10) {
                    Some(i) => i,
                    None => 0,
                };
                &&& e.line == if nl < usize::MAX {
                    nl + 1
                } else {
                    nl
                }
                &&& e.column == utf8_char_count(self.src@.subrange(start, off))
            }),
    {
        let (line, column) = self.current_location();
        ParseError { line, column, message: msg.to_owned() }
    }

    /// Collects the kinds of the events up to the first end of a level-1
    /// heading, consuming that end as well; reads the raw stream, so any
    /// put-back event stays put back.
    fn collect_h1_span(&mut self) -> (r: Vec<MdEventKind>)
        requires
            old(self).wf(),
            old(self).back is None,
        ensures
            final(self).wf(),
            final(self).same_stream(old(self)),
            final(self).back is None,
            final(self).offset == old(self).offset,
            old(self).pos <= final(self).pos,
            ({
                let evs = old(self).events@;
                let from = old(self).pos as int;
                match first_h1_end(evs, from) {
                    Some(i) => final(self).pos == i + 1 && r@ == kinds(evs.subrange(from, i)),
                    None => final(self).pos == evs.len() && r@ == kinds(
                        evs.subrange(from, evs.len() as int),
                    ),
                }
            }),
    {
        let ghost from = self.pos as int;
        let ghost evs = self.events@;
        let mut r: Vec<MdEventKind> = Vec::new();
        while self.pos < self.events.len()
            invariant
                self.wf(),
                self.back is None,
                evs == old(self).events@,
                from == old(self).pos as int,
                self.events@ == evs,
                self.offset == old(self).offset,
                self.src@ == old(self).src@,
                from <= self.pos as int <= evs.len(),
                forall|j: int| from <= j < self.pos as int ==> !is_h1_end(evs[j]),
                r@ == kinds(evs.subrange(from, self.pos as int)),
            decreases self.events@.len() - self.pos,
        {
            let hit = match &self.events[self.pos].kind {
                MdEventKind::End(MdTag::Heading(d)) => *d == 1,
                _ => false,
            };
            if hit {
                proof {
                    assert(is_h1_end(evs[self.pos as int]));
                    let w = choose|i: int|
                        from <= i < evs.len() && is_h1_end(evs[i]) && forall|j: int|
                            from <= j < i ==> !is_h1_end(evs[j]);
                    assert(w == self.pos as int);
                }
                self.pos = self.pos + 1;
                return r;
            }
            let k = self.events[self.pos].kind.clone();
            r.push(k);
            proof {
                assert(!is_h1_end(evs[self.pos as int]));
                assert(evs.subrange(from, self.pos + 1) =~= evs.subrange(
                    from,
                    self.pos as int,
                ).push(evs[self.pos as int]));
                assert(kinds(evs.subrange(from, self.pos + 1)) =~= kinds(
                    evs.subrange(from, self.pos as int),
                ).push(evs[self.pos as int].kind));
            }
            self.pos = self.pos + 1;
        }
        proof {
            assert(first_h1_end(evs, from) is None);
        }
        r
    }

    /// Parses the leading title heading: the first event must begin a
    /// level-1 heading, whose de-styled text becomes the title.
    pub fn parse_title(&mut self) -> (r: Result<String, ParseError>)
        requires
            old(self).wf(),
        ensures
            final(self).wf(),
            final(self).same_stream(old(self)),
            match r {
                Ok(t) => ({
                    &&& old(self).peek() matches Some(e) && is_h1_start(e)
                    &&& final(self).back is None
                    &&& ({
                        let evs = old(self).events@;
                        let from = old(self).after_peek_pos();
                        let end = match first_h1_end(evs, from) {
                            Some(i) => i,
                            None => evs.len() as int,
                        };
                        &&& t@ == stringified(kinds(evs.subrange(from, end)))
                        &&& final(self).pos == (match first_h1_end(evs, from) {
                            Some(i) => i + 1,
                            None => evs.len() as int,
                        })
                    })
                }),
                Err(err) => !(old(self).peek() matches Some(e) && is_h1_start(e)) && err.message@
                    == "Could not parse title"@,
            },
    {
        match self.next_event() {
            Some(ev) => {
                let is_h1 = match &ev.kind {
                    MdEventKind::Start(MdTag::Heading(d)) => *d == 1,
                    _ => false,
                };
                if is_h1 {
                    let tags = self.collect_h1_span();
                    Ok(stringify_events(tags))
                } else {
                    Err(self.parse_error("Could not parse title"))
                }
            },
            None => Err(self.parse_error("Could not parse title")),
        }
    }

    /// Collects the kinds of the events up to the first end of a link,
    /// whatever its destination, consuming that end as well.
    fn collect_link_span(&mut self) -> (r: Vec<MdEventKind>)
        requires
            old(self).wf(),
            old(self).back is None,
        ensures
            final(self).wf(),
            final(self).same_stream(old(self)),
            final(self).back is None,
            final(self).offset == old(self).offset,
            old(self).pos <= final(self).pos,
            ({
                let evs = old(self).events@;
                let from = old(self).pos as int;
                match first_link_end(evs, from) {
                    Some(i) => final(self).pos == i + 1 && r@ == kinds(evs.subrange(from, i)),
                    None => final(self).pos == evs.len() && r@ == kinds(
                        evs.subrange(from, evs.len() as int),
                    ),
                }
            }),
    {
        let ghost from = self.pos as int;
        let ghost evs = self.events@;
        let mut r: Vec<MdEventKind> = Vec::new();
        while self.pos < self.events.len()
            invariant
                self.wf(),
                self.back is None,
                evs == old(self).events@,
                from == old(self).pos as int,
                self.events@ == evs,
                self.offset == old(self).offset,
                self.src@ == old(self).src@,
                from <= self.pos as int <= evs.len(),
                forall|j: int| from <= j < self.pos as int ==> !is_link_end(evs[j]),
                r@ == kinds(evs.subrange(from, self.pos as int)),
            decreases self.events@.len() - self.pos,
        {
            let hit = match &self.events[self.pos].kind {
                MdEventKind::End(MdTag::Link(_)) => true,
                _ => false,
            };
            if hit {
                proof {
                    assert(is_link_end(evs[self.pos as int]));
                    let w = choose|i: int|
                        from <= i < evs.len() && is_link_end(evs[i]) && forall|j: int|
                            from <= j < i ==> !is_link_end(evs[j]);
                    assert(w == self.pos as int);
                }
                self.pos = self.pos + 1;
                return r;
            }
            let k = self.events[self.pos].kind.clone();
            r.push(k);
            proof {
                assert(!is_link_end(evs[self.pos as int]));
                assert(evs.subrange(from, self.pos + 1) =~= evs.subrange(
                    from,
                    self.pos as int,
                ).push(evs[self.pos as int]));
                assert(kinds(evs.subrange(from, self.pos + 1)) =~= kinds(
                    evs.subrange(from, self.pos as int),
                ).push(evs[self.pos as int].kind));
            }
            self.pos = self.pos + 1;
        }
        proof {
            assert(first_link_end(evs, from) is None);
        }
        r
    }

    /// Finishes parsing one link whose start event was already consumed: the
    /// chapter name is the de-styled text up to the link's end, and the
    /// destination, `%20` decoded to a space, is the location — or, when the
    /// destination is empty, the chapter is a draft.
    pub fn parse_link(&mut self, href: String) -> (r: Result<Link, ParseError>)
        requires
            old(self).wf(),
            old(self).back is None,
        ensures
            final(self).wf(),
            final(self).same_stream(old(self)),
            final(self).back is None,
            final(self).remaining() <= old(self).remaining(),
            final(self).pos == match first_link_end(old(self).events@, old(self).pos as int) {
                Some(i) => i + 1,
                None => old(self).events@.len() as int,
            },
            match r {
                Ok(l) => ({
                    let evs = old(self).events@;
                    let from = old(self).pos as int;
                    let end = match first_link_end(evs, from) {
                        Some(i) => i,
                        None => evs.len() as int,
                    };
                    &&& l.chapter.name@ == stringified(kinds(evs.subrange(from, end)))
                    &&& l.chapter@.location == (if spec_decode_space(href@).len() == 0 {
                        None
                    } else {
                        Some(spec_decode_space(href@))
                    })
                    &&& l.nested_items@.len() == 0
                    &&& l.section_number is None
                }),
                Err(_) => false,
            },
    {
        let href = decode_space(href.as_str());
        let link_content = self.collect_link_span();
        let name = stringify_events(link_content);
        let location = if href.unicode_len() == 0 {
            None
        } else {
            Some(href)
        };
        Ok(Link { chapter: Chapter { name, location }, section_number: None, nested_items: Vec::new() })
    }

    /// One link, seen against the stream as it stood before the link's start
    /// event was read: the chapter it yields and where the stream stands
    /// afterwards, both as the scans have them.
    fn parse_link_step(&mut self, href: String, rcall: Ghost<Seq<MdEvent>>) -> (r: Result<
        Chapter,
        ParseError,
    >)
        requires
            old(self).wf(),
            old(self).back is None,
            rcall@.len() > 0,
            rcall@.skip(1) == old(self).events@.skip(old(self).pos as int),
            link_start_href(rcall@[0]) == Some(href@),
        ensures
            final(self).wf(),
            final(self).same_stream(old(self)),
            final(self).back is None,
            final(self).remaining() < rcall@.len(),
            final(self).remaining() <= old(self).remaining(),
            match r {
                Ok(ch) => ({
                    let end_r = match first_link_end(rcall@, 1) {
                        Some(j) => j,
                        None => rcall@.len() as int,
                    };
                    &&& ch@.name == stringified(kinds(rcall@.subrange(1, end_r)))
                    &&& ch@.location == (if spec_decode_space(href@).len() == 0 {
                        None
                    } else {
                        Some(spec_decode_space(href@))
                    })
                    &&& if 1 <= end_r < rcall@.len() {
                        final(self).rest() == rcall@.skip(end_r + 1)
                    } else {
                        final(self).rest().len() == 0
                    }
                }),
                Err(_) => false,
            },
    {
        let ghost pos_here = self.pos as int;
        let ghost evs_all = self.events@;
        proof {
            assert(self.rest() =~= evs_all.skip(pos_here));
            lemma_first_link_end_align(evs_all, pos_here, rcall@, 1);
            lemma_first_link_end_props(evs_all, pos_here);
        }
        let link = match self.parse_link(href) {
            Ok(l) => l,
            Err(e) => {
                return Err(e);
            },
        };
        proof {
            let end_r = match first_link_end(rcall@, 1) {
                Some(j) => j,
                None => rcall@.len() as int,
            };
            match first_link_end(evs_all, pos_here) {
                Some(j) => {
                    assert(end_r == j - pos_here + 1);
                    assert(self.pos == j + 1);
                    assert(evs_all.subrange(pos_here, j) =~= rcall@.subrange(1, end_r));
                    assert(rcall@.skip(end_r + 1) =~= rcall@.skip(1).skip(end_r));
                    assert(rcall@.skip(1).skip(end_r) =~= evs_all.skip(pos_here).skip(end_r));
                    assert(evs_all.skip(pos_here).skip(end_r) =~= evs_all.skip(j + 1));
                    assert(self.rest() =~= rcall@.skip(end_r + 1));
                },
                None => {
                    assert(end_r == rcall@.len());
                    assert(self.pos == evs_all.len());
                    assert(evs_all.subrange(pos_here, evs_all.len() as int) =~= rcall@.subrange(
                        1,
                        end_r,
                    ));
                    assert(self.rest().len() == 0);
                },
            }
        }
        Ok(link.chapter)
    }

    /// Parses the un-numbered chapters before or after the main text: one
    /// chapter per link, until a list or heading begins. For the prefix pass
    /// such an event is put back and ends the region; for the suffix pass a
    /// list may not follow, so it is an error. The prefix pass never fails,
    /// and either pass returns exactly what the affix scan of the remaining
    /// stream gives.
    #[verifier::rlimit(100)]
    pub fn parse_affix(&mut self, is_prefix: bool) -> (r: Result<Vec<Chapter>, ParseError>)
        requires
            old(self).wf(),
        ensures
            final(self).wf(),
            final(self).same_stream(old(self)),
            final(self).remaining() <= old(self).remaining(),
            is_prefix ==> r is Ok,
            match r {
                Ok(chs) => affix_scan(old(self).rest(), is_prefix, Seq::empty()) == Some(
                    (cviews(chs@), final(self).rest()),
                ),
                Err(e) => affix_scan(old(self).rest(), is_prefix, Seq::empty()) is None
                    && !is_prefix && e.message@
                    == "Suffix chapters cannot be followed by a list"@,
            },
    {
        let mut items: Vec<Chapter> = Vec::new();
        let ghost scan0 = affix_scan(old(self).rest(), is_prefix, Seq::empty());
        proof {
            assert(cviews(items@) =~= Seq::<ChapterV>::empty());
        }
        proof {
            reveal(affix_scan);
        }
        loop
            invariant
                self.wf(),
                self.same_stream(old(self)),
                self.remaining() <= old(self).remaining(),
                scan0 == affix_scan(old(self).rest(), is_prefix, Seq::empty()),
                scan0 == affix_scan(self.rest(), is_prefix, cviews(items@)),
            decreases self.remaining(),
        {
            let ghost rcall = self.rest();
            let ghost acc = cviews(items@);
            proof {
                reveal(affix_scan);
            }
            match self.next_event() {
                None => {
                    proof {
                        assert(rcall.len() == 0);
                    }
                    return Ok(items);
                },
                Some(ev) => {
                    let ends_region = match &ev.kind {
                        MdEventKind::Start(MdTag::List) => true,
                        MdEventKind::Start(MdTag::Heading(d)) => *d == 1,
                        _ => false,
                    };
                    proof {
                        assert(ev == rcall[0]);
                        assert(ends_region == is_affix_stop(ev));
                    }
                    if ends_region {
                        if is_prefix {
                            self.put_back(ev);
                            return Ok(items);
                        } else {
                            return Err(
                                self.parse_error("Suffix chapters cannot be followed by a list"),
                            );
                        }
                    }
                    match ev.kind {
                        MdEventKind::Start(MdTag::Link(href)) => {
                            proof {
                                assert(rcall.skip(1) =~= self.events@.skip(self.pos as int));
                                assert(link_start_href(rcall[0]) == Some(href@));
                            }
                            let chapter = match self.parse_link_step(href, Ghost(rcall)) {
                                Ok(c) => c,
                                Err(e) => {
                                    return Err(e);
                                },
                            };
                            let ghost ch = chapter@;
                            items.push(chapter);
                            proof {
                                assert(cviews(items@) =~= acc.push(ch));
                            }
                        },
                        _ => {
                            proof {
                                assert(link_start_href(ev) is None);
                                assert(self.rest() =~= rcall.skip(1));
                            }
                        },
                    }
                },
            }
        }
    }

    /// Parses one list item: anything but a single link inside it is an
    /// error, and the link's chapter is numbered `parent` extended with the
    /// count of its elder siblings plus one.
    pub fn parse_nested_item(&mut self, parent: &SectionNumber, num_existing_items: usize) -> (r:
        Result<Link, ParseError>)
        requires
            old(self).wf(),
            num_existing_items + 1 <= u32::MAX,
        ensures
            final(self).wf(),
            final(self).same_stream(old(self)),
            final(self).remaining() <= old(self).remaining(),
            r is Ok ==> final(self).remaining() < old(self).remaining(),
            match r {
                Ok(l) => ({
                    &&& item_scan(old(self).rest()) matches Some(pr) && l.chapter@ == pr.0
                        && final(self).rest() == pr.1
                    &&& l.section_number matches Some(n) && n.0@ == parent.0@.push(
                        (num_existing_items + 1) as u32,
                    )
                    &&& l.nested_items@.len() == 0
                }),
                Err(e) => item_scan(old(self).rest()) is None && e.message@
                    == "The link items for nested chapters must only contain a hyperlink"@,
            },
    {
        proof {
            reveal(item_scan);
        }
        loop
            invariant
                self.wf(),
                self.same_stream(old(self)),
                self.remaining() <= old(self).remaining(),
                num_existing_items + 1 <= u32::MAX,
                item_scan(old(self).rest()) == item_scan(self.rest()),
            decreases self.remaining(),
        {
            let ghost rcall = self.rest();
            proof {
                reveal(item_scan);
            }
            match self.next_event() {
                Some(ev) => {
                    match ev.kind {
                        MdEventKind::Start(MdTag::Paragraph) => {
                            proof {
                                assert(self.rest() =~= rcall.skip(1));
                            }
                        },
                        MdEventKind::Start(MdTag::Link(href)) => {
                            proof {
                                assert(rcall.skip(1) =~= self.events@.skip(self.pos as int));
                                assert(link_start_href(rcall[0]) == Some(href@));
                            }
                            let chapter = match self.parse_link_step(href, Ghost(rcall)) {
                                Ok(c) => c,
                                Err(e) => {
                                    return Err(e);
                                },
                            };
                            let mut number = parent.clone();
                            number.0.push(num_existing_items as u32 + 1);
                            let link = Link {
                                chapter,
                                nested_items: Vec::new(),
                                section_number: Some(number),
                            };
                            return Ok(link);
                        },
                        _ => {
                            return Err(
                                self.parse_error(
                                    "The link items for nested chapters must only contain a hyperlink",
                                ),
                            );
                        },
                    }
                },
                None => {
                    return Err(
                        self.parse_error(
                            "The link items for nested chapters must only contain a hyperlink",
                        ),
                    );
                },
            }
        }
    }

    /// Parses one sibling group of numbered chapters, each item numbered
    /// `parent` extended with its position, recursing into a trailing nested
    /// list under the last item parsed so far.
    pub fn parse_nested_numbered(&mut self, parent: &SectionNumber) -> (r: Result<
        Vec<Link>,
        ParseError,
    >)
        requires
            old(self).wf(),
        ensures
            final(self).wf(),
            final(self).same_stream(old(self)),
            final(self).remaining() <= old(self).remaining(),
            old(self).remaining() > 0 ==> final(self).remaining() < old(self).remaining(),
            match r {
                Ok(items) => ({
                    &&& links_numbered(items@, parent.0@, 1)
                    &&& items@.len() <= old(self).remaining() - final(self).remaining()
                    &&& group_scan(
                        old(self).rest(),
                        Seq::empty(),
                        (old(self).rest().len() + 1) as nat,
                    ) matches Some(gr) && gr.0 == links_nodes(items@) && gr.1
                        == final(self).rest()
                }),
                Err(_) => group_scan(
                    old(self).rest(),
                    Seq::empty(),
                    (old(self).rest().len() + 1) as nat,
                ) is None,
            },
        decreases old(self).remaining(),
    {
        let mut items: Vec<Link> = Vec::new();
        let ghost rest0 = old(self).rest();
        let ghost fuel0 = (rest0.len() + 1) as nat;
        let ghost mut fuel_now: nat = fuel0;
        let ghost mut progressed: bool = false;
        proof {
            assert(links_nodes(items@) =~= Seq::<LinkNode>::empty());
        }
        loop
            invariant
                self.wf(),
                self.same_stream(old(self)),
                self.remaining() <= old(self).remaining(),
                progressed ==> self.remaining() < old(self).remaining(),
                !progressed ==> self.remaining() == old(self).remaining(),
                items@.len() <= old(self).remaining() - self.remaining(),
                links_numbered(items@, parent.0@, 1),
                rest0 == old(self).rest(),
                fuel0 == (rest0.len() + 1) as nat,
                self.remaining() == self.rest().len(),
                fuel_now >= self.rest().len() + 1,
                group_scan(rest0, Seq::empty(), fuel0) == group_scan(
                    self.rest(),
                    links_nodes(items@),
                    fuel_now,
                ),
            decreases self.remaining(),
        {
            let ghost rcall = self.rest();
            let ghost acc = links_nodes(items@);
            proof {
                reveal(group_scan);
            }
            match self.next_event() {
                None => {
                    proof {
                        assert(group_scan(rcall, acc, fuel_now) == Some((acc, rcall)));
                    }
                    return Ok(items);
                },
                Some(ev) => {
                    proof {
                        progressed = true;
                        assert(ev == rcall[0]);
                        assert(self.rest() =~= rcall.skip(1));
                    }
                    match ev.kind {
                        MdEventKind::Start(MdTag::Item) => {
                            proof {
                                assert(items@.len() + 1 <= u32::MAX);
                                lemma_item_scan_rest(rcall.skip(1));
                            }
                            let item = self.parse_nested_item(parent, items.len())?;
                            proof {
                                assert(link_numbered(
                                    item,
                                    parent.0@.push((1 + items@.len()) as u32),
                                ));
                                assert(items@.push(item)[items@.len() as int] == item);
                                assert(forall|k: int|
                                    0 <= k < items@.len() ==> items@.push(item)[k] == items@[k]);
                                let pr = item_scan(rcall.skip(1))->Some_0;
                                assert(links_nodes(Seq::<Link>::empty())
                                    == Seq::<LinkNode>::empty());
                                assert(link_node(item) == LinkNode {
                                    chapter: pr.0,
                                    nested: Seq::empty(),
                                });
                                lemma_links_nodes_push(items@, item);
                                assert(links_nodes(items@.push(item)) =~= acc.push(
                                    link_node(item),
                                ));
                                assert(group_scan(rcall, acc, fuel_now) == group_scan(
                                    pr.1,
                                    acc.push(LinkNode { chapter: pr.0, nested: Seq::empty() }),
                                    (fuel_now - 1) as nat,
                                ));
                                fuel_now = (fuel_now - 1) as nat;
                            }
                            items.push(item);
                        },
                        MdEventKind::Start(MdTag::List) => {
                            if items.len() > 0 {
                                let idx = match get_last_link(&items) {
                                    Ok(i) => i,
                                    Err(_) => {
                                        // items is non-empty here, so there is a last link
                                        proof {
                                            assert(false);
                                        }
                                        0
                                    },
                                };
                                let ghost items0 = items@;
                                let mut last = items.remove(idx);
                                proof {
                                    assert(link_numbered(
                                        last,
                                        parent.0@.push((1 + idx) as u32),
                                    ));
                                }
                                let number = match &last.section_number {
                                    Some(n) => n.clone(),
                                    None => {
                                        proof {
                                            assert(false);
                                        }
                                        SectionNumber(Vec::new())
                                    },
                                };
                                let sub_items = match self.parse_nested_numbered(&number) {
                                    Ok(s) => s,
                                    Err(e) => {
                                        proof {
                                            lemma_group_scan_fuel(
                                                rcall.skip(1),
                                                Seq::empty(),
                                                (fuel_now - 1) as nat,
                                                (rcall.skip(1).len() + 1) as nat,
                                            );
                                            assert(group_scan(rcall, acc, fuel_now) is None);
                                        }
                                        return Err(e);
                                    },
                                };
                                proof {
                                    lemma_group_scan_fuel(
                                        rcall.skip(1),
                                        Seq::empty(),
                                        (fuel_now - 1) as nat,
                                        (rcall.skip(1).len() + 1) as nat,
                                    );
                                    lemma_group_scan_rest(
                                        rcall.skip(1),
                                        Seq::empty(),
                                        (fuel_now - 1) as nat,
                                    );
                                }
                                last.nested_items = sub_items;
                                proof {
                                    assert(link_numbered(last, parent.0@.push((1 + idx) as u32)));
                                    assert(items@.push(last)[items@.len() as int] == last);
                                    assert(forall|k: int|
                                        0 <= k < items@.len() ==> items@.push(last)[k]
                                            == items@[k]);
                                }
                                items.push(last);
                                proof {
                                    let inner = group_scan(
                                        rcall.skip(1),
                                        Seq::empty(),
                                        (fuel_now - 1) as nat,
                                    )->Some_0;
                                    assert(items@ =~= items0.update(idx as int, items@.last()));
                                    lemma_links_nodes_index(items0);
                                    lemma_links_nodes_update(items0, idx as int, items@.last());
                                    assert(link_node(items@.last()) == LinkNode {
                                        chapter: acc.last().chapter,
                                        nested: inner.0,
                                    });
                                    assert(links_nodes(items@) =~= acc.update(
                                        acc.len() - 1,
                                        LinkNode { chapter: acc.last().chapter, nested: inner.0 },
                                    ));
                                    assert(group_scan(rcall, acc, fuel_now) == group_scan(
                                        self.rest(),
                                        links_nodes(items@),
                                        (fuel_now - 1) as nat,
                                    ));
                                    fuel_now = (fuel_now - 1) as nat;
                                }
                            } else {
                                proof {
                                    assert(acc.len() == 0);
                                    assert(group_scan(rcall, acc, fuel_now) == group_scan(
                                        rcall.skip(1),
                                        acc,
                                        (fuel_now - 1) as nat,
                                    ));
                                    fuel_now = (fuel_now - 1) as nat;
                                }
                            }
                        },
                        MdEventKind::End(MdTag::List) => {
                            proof {
                                assert(group_scan(rcall, acc, fuel_now) == Some(
                                    (acc, rcall.skip(1)),
                                ));
                            }
                            return Ok(items);
                        },
                        _ => {
                            proof {
                                assert(group_scan(rcall, acc, fuel_now) == group_scan(
                                    rcall.skip(1),
                                    acc,
                                    (fuel_now - 1) as nat,
                                ));
                                fuel_now = (fuel_now - 1) as nat;
                            }
                        },
                    }
                },
            }
        }
    }

    /// Takes one sibling group off the stream (whose next event begins a
    /// list), rebases it onto the running counter, and appends it to the
    /// items gathered so far.
    fn take_numbered_group(
        &mut self,
        root_items: &mut u32,
        root_number: &SectionNumber,
        items: &mut Vec<Link>,
        root_base: Ghost<u32>,
    ) -> (r: Result<(), ParseError>)
        requires
            old(self).wf(),
            root_number.0@.len() == 0,
            old(self).rest().len() > 0,
            old(self).rest()[0].kind matches MdEventKind::Start(MdTag::List),
            *old(root_items) + old(self).remaining() <= u32::MAX,
            *old(root_items) == root_base@ + old(items)@.len(),
            links_numbered(old(items)@, Seq::empty(), (root_base@ + 1) as u32),
        ensures
            final(self).wf(),
            final(self).same_stream(old(self)),
            final(self).remaining() < old(self).remaining(),
            match r {
                Ok(()) => ({
                    &&& links_numbered(final(items)@, Seq::empty(), (root_base@ + 1) as u32)
                    &&& *final(root_items) == root_base@ + final(items)@.len()
                    &&& *final(root_items) + final(self).remaining() <= u32::MAX
                    &&& group_scan(
                        old(self).rest(),
                        Seq::empty(),
                        (old(self).rest().len() + 1) as nat,
                    ) matches Some(gr) && links_nodes(final(items)@) == links_nodes(
                        old(items)@,
                    ) + gr.0 && gr.1 == final(self).rest()
                }),
                Err(_) => group_scan(
                    old(self).rest(),
                    Seq::empty(),
                    (old(self).rest().len() + 1) as nat,
                ) is None,
            },
    {
        let ghost rcall = old(self).rest();
        let parent = root_number.clone();
        proof {
            assert(parent.0@ =~= Seq::<u32>::empty());
        }
        let mut bunch = match self.parse_nested_numbered(&parent) {
            Ok(b) => b,
            Err(e) => {
                return Err(e);
            },
        };
        let ghost gr = group_scan(rcall, Seq::empty(), (rcall.len() + 1) as nat)->Some_0;
        proof {
            assert(gr.0 == links_nodes(bunch@));
            assert(gr.1 == self.rest());
            assert(links_numbered(bunch@, Seq::empty(), 1u32));
            assert(bunch@.len() + *root_items <= u32::MAX);
            lemma_group_bump_ok(bunch@, *root_items);
        }
        let ghost pre_bump = bunch@;
        update_section_numbers(&mut bunch, 0, *root_items);
        proof {
            lemma_group_rebased(pre_bump, bunch@, *root_items);
            assert(links_numbered(bunch@, Seq::empty(), (*root_items + 1) as u32));
        }
        let added: u32 = bunch.len() as u32;
        let ghost pre_items = items@;
        let ghost pre_bunch = bunch@;
        let ghost root_before = *root_items;
        *root_items = *root_items + added;
        items.append(&mut bunch);
        proof {
            assert((root_before + 1) as u32 == ((root_base@ + 1) as u32 + pre_items.len()) as u32);
            assert(links_numbered(
                pre_bunch,
                Seq::empty(),
                ((root_base@ + 1) as u32 + pre_items.len()) as u32,
            ));
            lemma_links_numbered_concat(
                pre_items,
                pre_bunch,
                Seq::empty(),
                (root_base@ + 1) as u32,
            );
            assert(items@ == pre_items + pre_bunch);
            // the renumbering keeps every subtree's chapters and shape
            assert forall|i: int| 0 <= i < pre_bump.len() implies link_node(pre_bunch[i])
                == link_node(#[trigger] pre_bump[i]) by {
                assert(link_bumped(pre_bump[i], pre_bunch[i], 0, root_before));
                lemma_bumped_node(pre_bump[i], pre_bunch[i], 0, root_before);
            }
            lemma_links_nodes_index(pre_bump);
            lemma_links_nodes_index(pre_bunch);
            assert forall|k: int| 0 <= k < pre_bunch.len() implies links_nodes(pre_bunch)[k]
                == links_nodes(pre_bump)[k] by {
                assert(links_nodes(pre_bunch)[k] == link_node(pre_bunch[k]));
                assert(links_nodes(pre_bump)[k] == link_node(pre_bump[k]));
                assert(link_node(pre_bunch[k]) == link_node(pre_bump[k]));
            }
            assert(links_nodes(pre_bunch) =~= links_nodes(pre_bump));
            lemma_links_nodes_concat(pre_items, pre_bunch);
            assert(links_nodes(items@) =~= links_nodes(pre_items) + links_nodes(pre_bunch));
            assert(links_nodes(items@) =~= links_nodes(pre_items) + gr.0);
        }
        Ok(())
    }

    /// Parses the numbered chapters of one part. Sibling groups accumulate
    /// across separators; each freshly parsed group is rebased onto the
    /// running counter `root_items`, which then advances by the group's size,
    /// so numbering continues rather than restarting. A heading (the next
    /// part) and any paragraph after the first (the suffix chapters) are put
    /// back and end the part.
    #[verifier::rlimit(100)]
    #[verifier::spinoff_prover]
    pub fn parse_numbered(&mut self, root_items: &mut u32, root_number: &mut SectionNumber) -> (r:
        Result<Vec<Link>, ParseError>)
        requires
            old(self).wf(),
            old(root_number).0@.len() == 0,
            *old(root_items) + old(self).remaining() <= u32::MAX,
            !(old(self).peek() matches Some(e) && is_h1_start(e)),
        ensures
            final(self).wf(),
            final(self).same_stream(old(self)),
            final(self).remaining() <= old(self).remaining(),
            old(self).remaining() > 0 ==> final(self).remaining() < old(self).remaining(),
            final(root_number).0@ == old(root_number).0@,
            match r {
                Ok(items) => ({
                    &&& links_numbered(items@, Seq::empty(), (*old(root_items) + 1) as u32)
                    &&& *final(root_items) == *old(root_items) + items@.len()
                    &&& *final(root_items) + final(self).remaining() <= u32::MAX
                    &&& numbered_scan(
                        old(self).rest(),
                        true,
                        Seq::empty(),
                        (old(self).rest().len() + 1) as nat,
                    ) matches Some(nr) && nr.0 == links_nodes(items@) && nr.1
                        == final(self).rest()
                }),
                Err(_) => numbered_scan(
                    old(self).rest(),
                    true,
                    Seq::empty(),
                    (old(self).rest().len() + 1) as nat,
                ) is None,
            },
    {
        let mut items: Vec<Link> = Vec::new();
        let mut first = true;
        let ghost mut progressed: bool = false;
        let ghost rest0 = old(self).rest();
        let ghost fuel0 = (rest0.len() + 1) as nat;
        let ghost mut fuel_now: nat = fuel0;
        proof {
            assert(links_nodes(items@) =~= Seq::<LinkNode>::empty());
        }
        loop
            invariant
                self.wf(),
                self.same_stream(old(self)),
                root_number.0@ == old(root_number).0@,
                root_number.0@.len() == 0,
                self.remaining() <= old(self).remaining(),
                progressed ==> self.remaining() < old(self).remaining(),
                !progressed ==> self.remaining() == old(self).remaining() && self.peek() == old(
                    self,
                ).peek(),
                !first ==> progressed,
                *root_items == *old(root_items) + items@.len(),
                *root_items + self.remaining() <= u32::MAX,
                links_numbered(items@, Seq::empty(), (*old(root_items) + 1) as u32),
                !(old(self).peek() matches Some(e) && is_h1_start(e)),
                rest0 == old(self).rest(),
                fuel0 == (rest0.len() + 1) as nat,
                self.remaining() == self.rest().len(),
                fuel_now >= self.rest().len() + 1,
                numbered_scan(rest0, true, Seq::empty(), fuel0) == numbered_scan(
                    self.rest(),
                    first,
                    links_nodes(items@),
                    fuel_now,
                ),
            decreases self.remaining(),
        {
            let ghost iter_rem = self.remaining();
            let ghost rcall = self.rest();
            let ghost myacc = links_nodes(items@);
            match self.next_event() {
                None => {
                    proof {
                        reveal(numbered_scan);
                        assert(numbered_scan(rcall, first, myacc, fuel_now) == Some(
                            (myacc, rcall),
                        ));
                    }
                    return Ok(items);
                },
                Some(ev) => {
                    let is_para = matches!(&ev.kind, MdEventKind::Start(MdTag::Paragraph));
                    let is_h1 = match &ev.kind {
                        MdEventKind::Start(MdTag::Heading(d)) => *d == 1,
                        _ => false,
                    };
                    let is_list = matches!(&ev.kind, MdEventKind::Start(MdTag::List));
                    let is_start = matches!(&ev.kind, MdEventKind::Start(_));
                    proof {
                        assert(ev == rcall[0]);
                        assert(self.rest() =~= rcall.skip(1));
                    }
                    if is_para {
                        if !first {
                            // the suffix chapters are starting
                            self.put_back(ev);
                            proof {
                                reveal(numbered_scan);
                                assert(self.rest() =~= rcall);
                                assert(numbered_scan(rcall, first, myacc, fuel_now) == Some(
                                    (myacc, rcall),
                                ));
                            }
                            return Ok(items);
                        }
                        // the opening paragraph just marks the start of the list
                        proof {
                            reveal(numbered_scan);
                            assert(numbered_scan(rcall, first, myacc, fuel_now) == numbered_scan(
                                rcall.skip(1),
                                false,
                                myacc,
                                (fuel_now - 1) as nat,
                            ));
                            fuel_now = (fuel_now - 1) as nat;
                        }
                    } else if is_h1 {
                        // a new part is starting
                        proof {
                            assert(progressed);
                        }
                        self.put_back(ev);
                        proof {
                            reveal(numbered_scan);
                            assert(self.rest() =~= rcall);
                            assert(numbered_scan(rcall, first, myacc, fuel_now) == Some(
                                (myacc, rcall),
                            ));
                        }
                        return Ok(items);
                    } else if is_list {
                        self.put_back(ev);
                        proof {
                            assert(self.rest() =~= rcall);
                        }
                        match self.take_numbered_group(
                            root_items,
                            root_number,
                            &mut items,
                            Ghost(*old(root_items)),
                        ) {
                            Ok(()) => {},
                            Err(e) => {
                                proof {
                                    reveal(numbered_scan);
                                    lemma_group_scan_fuel(
                                        rcall,
                                        Seq::empty(),
                                        fuel_now,
                                        (rcall.len() + 1) as nat,
                                    );
                                    assert(numbered_scan(rcall, first, myacc, fuel_now) is None);
                                }
                                return Err(e);
                            },
                        }
                        proof {
                            reveal(numbered_scan);
                            lemma_group_scan_fuel(
                                rcall,
                                Seq::empty(),
                                fuel_now,
                                (rcall.len() + 1) as nat,
                            );
                            let gr = group_scan(
                                rcall,
                                Seq::empty(),
                                (rcall.len() + 1) as nat,
                            )->Some_0;
                            assert(links_nodes(items@) == myacc + gr.0);
                            assert(numbered_scan(rcall, first, myacc, fuel_now) == numbered_scan(
                                gr.1,
                                false,
                                myacc + gr.0,
                                (fuel_now - 1) as nat,
                            ));
                            fuel_now = (fuel_now - 1) as nat;
                        }
                    } else if is_start {
                        // skip over the balanced span of this tag
                        let tag = match ev.kind {
                            MdEventKind::Start(t) => t,
                            _ => {
                                proof {
                                    assert(false);
                                }
                                MdTag::Paragraph
                            },
                        };
                        let ghost rest_sk = self.rest();
                        let ghost mut m: int = 0;
                        let mut done = false;
                        proof {
                            assert(rest_sk.skip(0) =~= rest_sk);
                        }
                        while !done
                            invariant
                                self.wf(),
                                self.same_stream(old(self)),
                                self.remaining() == self.rest().len(),
                                self.rest().len() <= rest_sk.len(),
                                rest_sk.len() <= iter_rem - 1,
                                iter_rem <= old(self).remaining(),
                                0 <= m <= rest_sk.len(),
                                !done ==> self.rest() == rest_sk.skip(m),
                                !done ==> forall|k: int|
                                    0 <= k < m ==> !ends_tag(#[trigger] rest_sk[k], tag),
                                done ==> (match first_matching_end(rest_sk, 0, tag) {
                                    Some(j) => 0 <= j < rest_sk.len() && self.rest()
                                        == rest_sk.skip(j + 1),
                                    None => self.rest().len() == 0,
                                }),
                            decreases self.remaining(), (if done {
                                0int
                            } else {
                                1int
                            }),
                        {
                            match self.next_event() {
                                None => {
                                    proof {
                                        reveal(first_matching_end);
                                        assert(m == rest_sk.len());
                                        assert(first_matching_end(rest_sk, 0, tag) is None);
                                    }
                                    done = true;
                                },
                                Some(e2) => {
                                    proof {
                                        assert(e2 == rest_sk[m]);
                                        assert(self.rest() =~= rest_sk.skip(m + 1));
                                    }
                                    let mut hit = false;
                                    match &e2.kind {
                                        MdEventKind::End(t2) => {
                                            if tag_eq(t2, &tag) {
                                                hit = true;
                                            }
                                        },
                                        _ => {},
                                    }
                                    if hit {
                                        proof {
                                            reveal(first_matching_end);
                                            assert(ends_tag(rest_sk[m], tag));
                                            let w = choose|w: int|
                                                0 <= w < rest_sk.len() && ends_tag(
                                                    #[trigger] rest_sk[w],
                                                    tag,
                                                ) && forall|k: int|
                                                    0 <= k < w ==> !ends_tag(
                                                        #[trigger] rest_sk[k],
                                                        tag,
                                                    );
                                            assert(!(w < m));
                                            assert(!(m < w));
                                            assert(first_matching_end(rest_sk, 0, tag) == Some(m));
                                        }
                                        done = true;
                                    } else {
                                        proof {
                                            assert(!ends_tag(rest_sk[m], tag));
                                            m = m + 1;
                                        }
                                    }
                                },
                            }
                        }
                        proof {
                            reveal(numbered_scan);
                            assert(rest_sk == rcall.skip(1));
                            match first_matching_end(rest_sk, 0, tag) {
                                Some(j) => {
                                    assert(numbered_scan(rcall, first, myacc, fuel_now)
                                        == numbered_scan(
                                        rest_sk.skip(j + 1),
                                        false,
                                        myacc,
                                        (fuel_now - 1) as nat,
                                    ));
                                },
                                None => {
                                    assert(numbered_scan(rcall, first, myacc, fuel_now) == Some(
                                        (myacc, Seq::<MdEvent>::empty()),
                                    ));
                                    assert(self.rest() =~= Seq::<MdEvent>::empty());
                                    assert(numbered_scan(
                                        self.rest(),
                                        false,
                                        myacc,
                                        (fuel_now - 1) as nat,
                                    ) == Some((myacc, self.rest())));
                                },
                            }
                            fuel_now = (fuel_now - 1) as nat;
                        }
                    } else {
                        // other events are ignored
                        proof {
                            reveal(numbered_scan);
                            assert(numbered_scan(rcall, first, myacc, fuel_now) == numbered_scan(
                                rcall.skip(1),
                                false,
                                myacc,
                                (fuel_now - 1) as nat,
                            ));
                            fuel_now = (fuel_now - 1) as nat;
                        }
                    }
                    proof {
                        progressed = true;
                    }
                    first = false;
                },
            }
        }
    }

    /// Parses all parts of the numbered section: an optional heading (a part
    /// title, discarded) followed by that part's numbered chapters, repeated;
    /// the running counter threads through, so numbering is continuous across
    /// parts. The first paragraph ends the section.
    #[verifier::rlimit(100)]
    #[verifier::spinoff_prover]
    pub fn parse_parts(&mut self) -> (r: Result<Vec<Link>, ParseError>)
        requires
            old(self).wf(),
        ensures
            final(self).wf(),
            final(self).same_stream(old(self)),
            final(self).remaining() <= old(self).remaining(),
            match r {
                Ok(parts) => ({
                    &&& links_numbered(parts@, Seq::empty(), 1u32)
                    &&& final(self).rest().len() == 0 || (final(self).rest()[0].kind
                        matches MdEventKind::Start(MdTag::Paragraph))
                    &&& parts_scan(
                        old(self).rest(),
                        Seq::empty(),
                        (old(self).rest().len() + 1) as nat,
                    ) matches Some(pp) && pp.0 == links_nodes(parts@) && pp.1
                        == final(self).rest()
                }),
                Err(_) => parts_scan(
                    old(self).rest(),
                    Seq::empty(),
                    (old(self).rest().len() + 1) as nat,
                ) is None,
            },
    {
        let mut parts: Vec<Link> = Vec::new();
        let mut root_number = SectionNumber::default();
        let mut root_items: u32 = 0;
        let ghost rest0 = old(self).rest();
        let ghost fuel0 = (rest0.len() + 1) as nat;
        let ghost mut fuel_now: nat = fuel0;
        proof {
            assert(links_nodes(parts@) =~= Seq::<LinkNode>::empty());
        }
        loop
            invariant
                self.wf(),
                self.same_stream(old(self)),
                self.remaining() <= old(self).remaining(),
                root_number.0@.len() == 0,
                root_items == parts@.len(),
                root_items + self.remaining() <= u32::MAX,
                links_numbered(parts@, Seq::empty(), 1u32),
                rest0 == old(self).rest(),
                fuel0 == (rest0.len() + 1) as nat,
                self.remaining() == self.rest().len(),
                fuel_now >= self.rest().len() + 1,
                parts_scan(rest0, Seq::empty(), fuel0) == parts_scan(
                    self.rest(),
                    links_nodes(parts@),
                    fuel_now,
                ),
            decreases self.remaining(),
        {
            let ghost rcall = self.rest();
            let ghost myacc = links_nodes(parts@);
            match self.next_event() {
                None => {
                    proof {
                        reveal(parts_scan);
                        assert(parts_scan(rcall, myacc, fuel_now) == Some((myacc, rcall)));
                    }
                    return Ok(parts);
                },
                Some(ev) => {
                    let is_para = matches!(&ev.kind, MdEventKind::Start(MdTag::Paragraph));
                    let is_h1 = match &ev.kind {
                        MdEventKind::Start(MdTag::Heading(d)) => *d == 1,
                        _ => false,
                    };
                    proof {
                        assert(ev == rcall[0]);
                        assert(self.rest() =~= rcall.skip(1));
                    }
                    if is_para {
                        // the suffix chapters are starting
                        self.put_back(ev);
                        proof {
                            reveal(parts_scan);
                            assert(self.rest() =~= rcall);
                            assert(parts_scan(rcall, myacc, fuel_now) == Some((myacc, rcall)));
                        }
                        return Ok(parts);
                    }
                    if is_h1 {
                        // a part title: discard its text
                        let ghost pos_here = self.pos as int;
                        let ghost evs_all = self.events@;
                        proof {
                            assert(rcall.skip(1) =~= evs_all.skip(pos_here));
                            lemma_first_h1_end_align(evs_all, pos_here, rcall, 1);
                            lemma_first_h1_end_props(rcall, 1);
                        }
                        let _ = self.collect_h1_span();
                        proof {
                            reveal(parts_scan);
                            match first_h1_end(rcall, 1) {
                                Some(j) => {
                                    assert(self.pos == j - 1 + pos_here + 1);
                                    assert(rcall.skip(j + 1) =~= rcall.skip(1).skip(j));
                                    assert(rcall.skip(1).skip(j) =~= evs_all.skip(pos_here).skip(
                                        j,
                                    ));
                                    assert(evs_all.skip(pos_here).skip(j) =~= evs_all.skip(
                                        pos_here + j,
                                    ));
                                    assert(self.rest() =~= rcall.skip(j + 1));
                                    assert(parts_scan(rcall, myacc, fuel_now) == parts_scan(
                                        rcall.skip(j + 1),
                                        myacc,
                                        (fuel_now - 1) as nat,
                                    ));
                                },
                                None => {
                                    assert(self.pos == evs_all.len());
                                    assert(self.rest().len() == 0);
                                    assert(parts_scan(rcall, myacc, fuel_now) == Some(
                                        (myacc, Seq::<MdEvent>::empty()),
                                    ));
                                    assert(parts_scan(
                                        self.rest(),
                                        myacc,
                                        (fuel_now - 1) as nat,
                                    ) == Some((myacc, self.rest())));
                                },
                            }
                            fuel_now = (fuel_now - 1) as nat;
                        }
                    } else {
                        self.put_back(ev);
                        proof {
                            assert(self.rest() =~= rcall);
                            lemma_numbered_scan_fuel(
                                rcall,
                                true,
                                Seq::empty(),
                                fuel_now,
                                (rcall.len() + 1) as nat,
                            );
                        }
                        let numbered = match self.parse_numbered(&mut root_items, &mut root_number)
                        {
                            Ok(n) => n,
                            Err(e) => {
                                proof {
                                    reveal(parts_scan);
                                    assert(parts_scan(rcall, myacc, fuel_now) is None);
                                }
                                return Err(e);
                            },
                        };
                        let ghost nr = numbered_scan(
                            rcall,
                            true,
                            Seq::empty(),
                            (rcall.len() + 1) as nat,
                        )->Some_0;
                        let ghost pre_parts = parts@;
                        let ghost pre_numbered = numbered@;
                        let mut numbered = numbered;
                        parts.append(&mut numbered);
                        proof {
                            assert((pre_parts.len() + 1) as u32 == (1u32 + pre_parts.len()) as u32);
                            lemma_links_numbered_concat(pre_parts, pre_numbered, Seq::empty(), 1u32);
                            assert(parts@ == pre_parts + pre_numbered);
                            reveal(parts_scan);
                            lemma_links_nodes_concat(pre_parts, pre_numbered);
                            assert(links_nodes(parts@) =~= links_nodes(pre_parts) + links_nodes(
                                pre_numbered,
                            ));
                            assert(links_nodes(parts@) =~= myacc + nr.0);
                            assert(parts_scan(rcall, myacc, fuel_now) == parts_scan(
                                nr.1,
                                myacc + nr.0,
                                (fuel_now - 1) as nat,
                            ));
                            fuel_now = (fuel_now - 1) as nat;
                        }
                    }
                },
            }
        }
    }

    /// Parses the whole summary document: the title, the prefix chapters,
    /// the numbered parts, and the suffix chapters, in that order.
    pub fn parse(self) -> (r: Result<Summary, ParseError>)
        requires
            self.pos == 0,
            self.back is None,
        ensures
            match r {
                Ok(s) => ({
                    &&& links_numbered(s.numbered_chapters@, Seq::empty(), 1u32)
                    &&& summary_scan(self.events@) matches Some(sc) && s.title@ == sc.0 && cviews(
                        s.prefix_chapters@,
                    ) == sc.1 && links_nodes(s.numbered_chapters@) == sc.2 && cviews(
                        s.suffix_chapters@,
                    ) == sc.3
                }),
                Err(_) => true,
            },
            r is Err <==> (self.events@.len() > MAX_EVENTS || summary_scan(
                self.events@,
            ) is None),
    {
        let mut p = self;
        if p.events.len() > MAX_EVENTS {
            return Err(
                ParseError {
                    line: 1,
                    column: 0,
                    message: "The summary document is too large to parse".to_owned(),
                },
            );
        }
        let ghost evs = self.events@;
        let title = match p.parse_title() {
            Ok(t) => t,
            Err(e) => {
                proof {
                    assert(!(evs.len() > 0 && is_h1_start(evs[0])));
                    assert(summary_scan(evs) is None);
                }
                return Err(e);
            },
        };
        proof {
            assert(evs.len() > 0 && is_h1_start(evs[0]));
            assert(p.rest() =~= evs.skip(
                match first_h1_end(evs, 1) {
                    Some(i) => i + 1,
                    None => evs.len() as int,
                },
            ));
        }
        let ghost rest_title = p.rest();
        let prefix_chapters = match p.parse_affix(true) {
            Ok(c) => c,
            Err(e) => {
                return Err(e);
            },
        };
        let ghost pr = affix_scan(rest_title, true, Seq::empty())->Some_0;
        proof {
            assert(pr.1 == p.rest());
        }
        let numbered_chapters = match p.parse_parts() {
            Ok(l) => l,
            Err(e) => {
                proof {
                    assert(parts_scan(pr.1, Seq::empty(), (pr.1.len() + 1) as nat) is None);
                    assert(summary_scan(evs) is None);
                }
                return Err(e);
            },
        };
        let ghost pp = parts_scan(pr.1, Seq::empty(), (pr.1.len() + 1) as nat)->Some_0;
        proof {
            assert(pp.1 == p.rest());
        }
        let suffix_chapters = match p.parse_affix(false) {
            Ok(c) => c,
            Err(e) => {
                proof {
                    assert(affix_scan(pp.1, false, Seq::empty()) is None);
                    assert(summary_scan(evs) is None);
                }
                return Err(e);
            },
        };
        proof {
            assert(summary_scan(evs) matches Some(sc) && sc.1 == cviews(prefix_chapters@) && sc.2
                == links_nodes(numbered_chapters@) && sc.3 == cviews(suffix_chapters@));
        }
        Ok(Summary { title, prefix_chapters, numbered_chapters, suffix_chapters })
    }
}

/// Parses the text of a summary document into a recipe for how the book is
/// laid out. In any parsed summary the section numbers at each sibling level
/// are contiguous ascending from one, whatever headings, horizontal rules or
/// comments stand between the lists; the document must open with a title
/// heading, whose de-styled text becomes the title.
pub fn parse_summary(summary: &str) -> (r: Result<Summary, ParseError>)
    ensures
        match r {
            Ok(s) => ({
                &&& links_numbered(s.numbered_chapters@, Seq::empty(), 1u32)
                &&& summary_scan(crate::events::events_of(summary@)) matches Some(sc) && s.title@
                    == sc.0 && cviews(s.prefix_chapters@) == sc.1 && links_nodes(
                    s.numbered_chapters@,
                ) == sc.2 && cviews(s.suffix_chapters@) == sc.3
            }),
            Err(_) => true,
        },
        r is Err <==> (crate::events::events_of(summary@).len() > MAX_EVENTS || summary_scan(
            crate::events::events_of(summary@),
        ) is None),
{
    let parser = SummaryParser::new(summary);
    parser.parse()
}

} // verus!
