//! A writer for ninja build files: escaping, line wrapping at a configured
//! width with `$`-continuations, and the statement builders, all into an
//! owned byte buffer that the caller flushes to disk.

use vstd::prelude::*;
use vstd::slice::{slice_subrange, slice_to_vec};
use vstd::string::StringSliceAdditionalSpecFns;

use crate::text::push_char;

verus! {

/// One scan of `$ ` to `$$ `, left to right.
pub open spec fn esc_dollar_space(s: Seq<char>) -> Seq<char>
    decreases s.len(),
{
    if s.len() < 2 {
        s
    } else if s[0] == '$' && s[1] == ' ' {
        seq!['$', '$', ' '] + esc_dollar_space(s.skip(2))
    } else {
        seq![s[0]] + esc_dollar_space(s.skip(1))
    }
}

/// One scan of ` ` to `$ `.
pub open spec fn esc_space(s: Seq<char>) -> Seq<char>
    decreases s.len(),
{
    if s.len() == 0 {
        s
    } else if s[0] == ' ' {
        seq!['$', ' '] + esc_space(s.skip(1))
    } else {
        seq![s[0]] + esc_space(s.skip(1))
    }
}

/// One scan of `:` to `$:`.
pub open spec fn esc_colon(s: Seq<char>) -> Seq<char>
    decreases s.len(),
{
    if s.len() == 0 {
        s
    } else if s[0] == ':' {
        seq!['$', ':'] + esc_colon(s.skip(1))
    } else {
        seq![s[0]] + esc_colon(s.skip(1))
    }
}

/// A path escaped for a ninja file: `$ ` doubled, then every space and
/// colon guarded with a `$`.
pub open spec fn spec_escape_path(s: Seq<char>) -> Seq<char> {
    esc_colon(esc_space(esc_dollar_space(s)))
}

fn esc_dollar_space_exec(s: &str) -> (r: String)
    ensures
        r@ == esc_dollar_space(s@),
{
    let n = s.unicode_len();
    let mut r = String::new();
    let mut i: usize = 0;
    proof {
        assert(s@.skip(0) =~= s@);
        assert(r@ + esc_dollar_space(s@) =~= esc_dollar_space(s@));
    }
    while i < n
        invariant
            i <= n,
            n == s@.len(),
            esc_dollar_space(s@) == r@ + esc_dollar_space(s@.skip(i as int)),
        decreases n - i,
    {
        if n >= 2 && i <= n - 2 && s.get_char(i) == '$' && s.get_char(i + 1) == ' ' {
            push_char(&mut r, '$');
            push_char(&mut r, '$');
            push_char(&mut r, ' ');
            proof {
                assert(s@.skip(i as int).skip(2) =~= s@.skip(i + 2));
                assert(s@.skip(i as int)[0] == '$' && s@.skip(i as int)[1] == ' ');
                assert(esc_dollar_space(s@.skip(i as int)) == seq!['$', '$', ' ']
                    + esc_dollar_space(s@.skip(i + 2)));
            }
            i = i + 2;
        } else {
            push_char(&mut r, s.get_char(i));
            proof {
                assert(s@.skip(i as int).skip(1) =~= s@.skip(i + 1));
                assert(s@.skip(i as int)[0] == s@[i as int]);
                if s@.skip(i as int).len() < 2 {
                    assert(esc_dollar_space(s@.skip(i + 1)) =~= s@.skip(i + 1));
                    assert(esc_dollar_space(s@.skip(i as int)) =~= seq![s@[i as int]]
                        + esc_dollar_space(s@.skip(i + 1)));
                } else {
                    assert(esc_dollar_space(s@.skip(i as int)) == seq![s@[i as int]]
                        + esc_dollar_space(s@.skip(i + 1)));
                }
            }
            i = i + 1;
        }
        proof {
            assert(esc_dollar_space(s@) == r@ + esc_dollar_space(s@.skip(i as int)));
        }
    }
    proof {
        assert(s@.skip(n as int) =~= Seq::<char>::empty());
        assert(r@ =~= esc_dollar_space(s@));
    }
    r
}

fn esc_char_exec(s: &str, what: char) -> (r: String)
    ensures
        what == ' ' ==> r@ == esc_space(s@),
        what == ':' ==> r@ == esc_colon(s@),
{
    let n = s.unicode_len();
    let mut r = String::new();
    let mut i: usize = 0;
    proof {
        assert(s@.skip(0) =~= s@);
        if what == ' ' {
            assert(r@ + esc_space(s@) =~= esc_space(s@));
        }
        if what == ':' {
            assert(r@ + esc_colon(s@) =~= esc_colon(s@));
        }
    }
    while i < n
        invariant
            i <= n,
            n == s@.len(),
            what == ' ' ==> esc_space(s@) == r@ + esc_space(s@.skip(i as int)),
            what == ':' ==> esc_colon(s@) == r@ + esc_colon(s@.skip(i as int)),
        decreases n - i,
    {
        let c = s.get_char(i);
        if c == what {
            push_char(&mut r, '$');
        }
        push_char(&mut r, c);
        proof {
            assert(s@.skip(i as int).skip(1) =~= s@.skip(i + 1));
            assert(s@.skip(i as int)[0] == s@[i as int]);
        }
        i = i + 1;
    }
    proof {
        assert(s@.skip(n as int) =~= Seq::<char>::empty());
        if what == ' ' {
            assert(r@ =~= esc_space(s@));
        }
        if what == ':' {
            assert(r@ =~= esc_colon(s@));
        }
    }
    r
}

/// Escapes a path for use in a ninja file: an escaped space stays escaped,
/// and every bare space or colon is guarded with a `$`.
pub fn escape_path(word: &str) -> (r: String)
    ensures
        r@ == spec_escape_path(word@),
{
    let a = esc_dollar_space_exec(word);
    let b = esc_char_exec(a.as_str(), ' ');
    esc_char_exec(b.as_str(), ':')
}

/// `$` doubled throughout, so the text carries no ninja variable reference.
pub open spec fn esc_dollar(s: Seq<char>) -> Seq<char>
    decreases s.len(),
{
    if s.len() == 0 {
        s
    } else if s[0] == '$' {
        seq!['$', '$'] + esc_dollar(s.skip(1))
    } else {
        seq![s[0]] + esc_dollar(s.skip(1))
    }
}

/// Escape a string such that it can be embedded into a ninja file without
/// further interpretation; a string with a newline cannot be.
pub fn escape(s: &str) -> (r: Option<String>)
    ensures
        match r {
            Some(t) => t@ == esc_dollar(s@) && !s@.contains('\n'),
            None => s@.contains('\n'),
        },
{
    let n = s.unicode_len();
    let mut r = String::new();
    let mut i: usize = 0;
    proof {
        assert(s@.skip(0) =~= s@);
        assert(r@ + esc_dollar(s@) =~= esc_dollar(s@));
    }
    while i < n
        invariant
            i <= n,
            n == s@.len(),
            esc_dollar(s@) == r@ + esc_dollar(s@.skip(i as int)),
            forall|j: int| 0 <= j < i ==> s@[j] != '\n',
        decreases n - i,
    {
        let c = s.get_char(i);
        if c == '\n' {
            proof {
                assert(s@.contains('\n'));
            }
            return None;
        }
        if c == '$' {
            push_char(&mut r, '$');
        }
        push_char(&mut r, c);
        proof {
            assert(s@.skip(i as int).skip(1) =~= s@.skip(i + 1));
            assert(s@.skip(i as int)[0] == s@[i as int]);
        }
        i = i + 1;
    }
    proof {
        assert(s@.skip(n as int) =~= Seq::<char>::empty());
        assert(r@ =~= esc_dollar(s@));
        assert(!s@.contains('\n'));
    }
    Some(r)
}

/// How many `$` bytes stand immediately before index `i`, never counting
/// the byte at index zero.
pub open spec fn spec_dollars_before(s: Seq<u8>, i: int) -> int
    decreases i,
{
    if i - 1 > 0 && s[i - 1] == 36 {
        1 + spec_dollars_before(s, i - 1)
    } else {
        0
    }
}

/// Counts the consecutive `$` bytes immediately before index `i`.
pub fn count_dollars_before_index(s: &[u8], i: usize) -> (r: usize)
    requires
        i <= s@.len(),
    ensures
        r == spec_dollars_before(s@, i as int),
{
    let mut count: usize = 0;
    let mut j: usize = i;
    while j > 1 && s[j - 1] == 36
        invariant
            j <= i,
            i <= s@.len(),
            count == i - j,
            spec_dollars_before(s@, i as int) == count + spec_dollars_before(s@, j as int),
        decreases j,
    {
        count = count + 1;
        j = j - 1;
    }
    count
}

/// A space at which the wrapper may break: a real space, not an escaped one.
pub open spec fn breakable(t: Seq<u8>, j: int) -> bool {
    t[j] == 32 && spec_dollars_before(t, j) % 2 == 0
}

/// The last breakable space strictly before `lim`, if any.
#[verifier::opaque]
pub open spec fn spec_last_break(t: Seq<u8>, lim: int) -> Option<int> {
    if exists|j: int| 0 <= j < lim && breakable(t, j) {
        Some(choose|j: int|
            0 <= j < lim && breakable(t, j) && forall|k: int| j < k < lim ==> !breakable(t, k))
    } else {
        None
    }
}

/// The first breakable space at or after `from`, if any.
#[verifier::opaque]
pub open spec fn spec_first_break(t: Seq<u8>, from: int) -> Option<int> {
    if exists|j: int| from <= j < t.len() && breakable(t, j) {
        Some(choose|j: int|
            from <= j < t.len() && breakable(t, j) && forall|k: int|
                from <= k < j ==> !breakable(t, k))
    } else {
        None
    }
}

/// Where the wrapper breaks the line: the last breakable space that fits,
/// or else the first one beyond the width.
#[verifier::opaque]
pub open spec fn spec_break(t: Seq<u8>, avail: int) -> Option<int> {
    match spec_last_break(t, avail) {
        Some(j) => Some(j),
        None => spec_first_break(t, avail),
    }
}

/// `n` spaces.
pub open spec fn spec_spaces(n: int) -> Seq<u8>
    decreases n,
{
    if n <= 0 {
        Seq::empty()
    } else {
        spec_spaces(n - 1).push(32)
    }
}

/// The text wrapped to the width: whenever the line with its leading spaces
/// overflows, it is broken at a breakable space — the last that fits, else
/// the first beyond — with a ` $` continuation, and the remainder continues
/// under the deeper indent `cont`; text that cannot be broken, or whose
/// indent leaves no room, is emitted as it stands.
pub open spec fn spec_wrap(t: Seq<u8>, lead: int, cont: int, width: int) -> Seq<u8>
    decreases t.len(),
{
    if lead + t.len() <= width || width < lead + 2 {
        spec_spaces(lead) + t + seq![10u8]
    } else {
        match spec_break(t, width - lead - 2) {
            None => spec_spaces(lead) + t + seq![10u8],
            Some(j) => {
                if 0 <= j < t.len() {
                    spec_spaces(lead) + t.take(j) + seq![32u8, 36u8, 10u8] + spec_wrap(
                        t.skip(j + 1),
                        cont,
                        cont,
                        width,
                    )
                } else {
                    spec_spaces(lead) + t + seq![10u8]
                }
            },
        }
    }
}

/// Appends the bytes of `s` to `out`.
fn append_bytes(out: &mut Vec<u8>, s: &[u8])
    ensures
        final(out)@ == old(out)@ + s@,
{
    let n = s.len();
    let mut i: usize = 0;
    while i < n
        invariant
            i <= n,
            n == s@.len(),
            out@ == old(out)@ + s@.take(i as int),
        decreases n - i,
    {
        out.push(s[i]);
        proof {
            assert(s@.take(i + 1) =~= s@.take(i as int).push(s@[i as int]));
            assert(out@ =~= old(out)@ + s@.take(i + 1));
        }
        i = i + 1;
    }
    proof {
        assert(s@.take(n as int) =~= s@);
    }
}

/// Appends `n` spaces to `out`.
fn append_spaces(out: &mut Vec<u8>, n: usize)
    ensures
        final(out)@ == old(out)@ + spec_spaces(n as int),
{
    let mut i: usize = 0;
    while i < n
        invariant
            i <= n,
            out@ == old(out)@ + spec_spaces(i as int),
        decreases n - i,
    {
        out.push(32);
        proof {
            assert(out@ =~= old(out)@ + spec_spaces(i + 1));
        }
        i = i + 1;
    }
}

/// Finds where to break the text for the given room before the
/// continuation marker.
#[verifier::rlimit(60)]
fn find_break(text: &[u8], avail: usize) -> (r: Option<usize>)
    requires
        avail < text@.len(),
    ensures
        match r {
            Some(j) => j < text@.len() && spec_break(text@, avail as int) == Some(j as int),
            None => spec_break(text@, avail as int) is None,
        },
{
    proof {
        reveal(spec_last_break);
        reveal(spec_first_break);
        reveal(spec_break);
    }
    // Backward: the last breakable space strictly before `avail`.
    let mut lim = avail;
    loop
        invariant
            lim <= avail,
            avail < text@.len(),
            forall|k: int| lim <= k < avail ==> !breakable(text@, k),
        ensures
            forall|k: int| 0 <= k < avail ==> !breakable(text@, k),
        decreases lim,
    {
        proof {
            reveal(spec_last_break);
            reveal(spec_first_break);
            reveal(spec_break);
        }
        let pre = slice_subrange(text, 0, lim);
        proof {
            assert(forall|k: int| 0 <= k < lim ==> pre@[k] == text@[k]);
        }
        match memchr::memrchr(32, pre) {
            None => {
                proof {
                    assert(forall|k: int| 0 <= k < lim ==> text@[k] != 32);
                    assert(forall|k: int| 0 <= k < avail ==> !breakable(text@, k));
                }
                break ;
            },
            Some(j) => {
                proof {
                    assert(text@[j as int] == 32);
                    assert(forall|k: int| j < k < lim ==> text@[k] != 32);
                }
                let d = count_dollars_before_index(text, j);
                if d % 2 == 0 {
                    proof {
                        assert(breakable(text@, j as int));
                        assert(forall|k: int| j < k < avail ==> !breakable(text@, k));
                        let w = choose|w: int|
                            0 <= w < avail && breakable(text@, w) && forall|k: int|
                                w < k < avail ==> !breakable(text@, k);
                        assert(!(w < j));
                        assert(!(j < w));
                        assert(w == j as int);
                    }
                    return Some(j);
                }
                proof {
                    assert(!breakable(text@, j as int));
                }
                lim = j;
            },
        }
    }
    // Forward: the first breakable space at or after `avail`.
    let n = text.len();
    let mut pos = avail;
    loop
        invariant
            avail <= pos,
            n == text@.len(),
            avail < n,
            forall|k: int| avail <= k < pos ==> !breakable(text@, k),
            forall|k: int| 0 <= k < avail ==> !breakable(text@, k),
        ensures
            spec_break(text@, avail as int) is None || (exists|j: int|
                spec_break(text@, avail as int) == Some(j) && 0 <= j < text@.len()),
        decreases n - pos,
    {
        proof {
            reveal(spec_last_break);
            reveal(spec_first_break);
            reveal(spec_break);
        }
        if pos >= n {
            proof {
                assert(spec_first_break(text@, avail as int) is None);
            }
            return None;
        }
        let tail = slice_subrange(text, pos, n);
        proof {
            assert(forall|k: int| 0 <= k < tail@.len() ==> tail@[k] == text@[pos + k]);
        }
        match memchr::memchr(32, tail) {
            None => {
                proof {
                    assert forall|k: int| pos <= k < n implies text@[k] != 32 by {
                        assert(tail@[k - pos] == text@[k]);
                    }
                    assert(spec_first_break(text@, avail as int) is None);
                }
                return None;
            },
            Some(off) => {
                let j = pos + off;
                proof {
                    assert(tail@[off as int] == text@[j as int]);
                    assert(text@[j as int] == 32);
                    assert forall|k: int| pos <= k < j implies text@[k] != 32 by {
                        assert(tail@[k - pos] == text@[k]);
                    }
                }
                let d = count_dollars_before_index(text, j);
                if d % 2 == 0 {
                    proof {
                        assert(breakable(text@, j as int));
                        assert(spec_last_break(text@, avail as int) is None);
                        assert(forall|k: int| avail <= k < j ==> !breakable(text@, k));
                        let w = choose|w: int|
                            avail <= w < text@.len() && breakable(text@, w) && forall|k: int|
                                avail <= k < w ==> !breakable(text@, k);
                        assert(!(w < j));
                        assert(!(j < w));
                        assert(w == j as int);
                    }
                    return Some(j);
                }
                proof {
                    assert(!breakable(text@, j as int));
                    assert forall|k: int| avail <= k < j + 1 implies !breakable(text@, k) by {}
                }
                pos = j + 1;
            },
        }
    }
    proof {
        assert(false);
    }
    None
}

/// A writer for one ninja file, accumulating the file's bytes; the caller
/// writes the buffer to disk when the file is complete.
#[derive(Debug)]
pub struct NinjaWritter {
    /// The width lines are wrapped to.
    pub width: usize,
    /// The bytes of the file so far.
    pub output: Vec<u8>,
}

impl NinjaWritter {
    /// A writer wrapping at the conventional width.
    pub fn new() -> (r: Self)
        ensures
            r.width == 78,
            r.output@ == Seq::<u8>::empty(),
    {
        Self::with_width(78)
    }

    /// A writer wrapping at the given width.
    pub fn with_width(width: usize) -> (r: Self)
        ensures
            r.width == width,
            r.output@ == Seq::<u8>::empty(),
    {
        NinjaWritter { width, output: Vec::new() }
    }

    /// Appends one empty line.
    pub fn newline(&mut self)
        ensures
            final(self).output@ == old(self).output@ + seq![10u8],
            final(self).width == old(self).width,
    {
        self.output.push(10);
        proof {
            assert(final(self).output@ =~= old(self).output@ + seq![10u8]);
        }
    }

    /// Appends one statement line, wrapped at the writer's width.
    pub fn line(&mut self, text: &[u8])
        ensures
            final(self).output@ == old(self).output@ + spec_wrap(text@, 0, 4, old(self).width as int),
            final(self).width == old(self).width,
    {
        self.line_indent(text, 0)
    }

    /// Appends one statement line under `indent` indent steps, wrapped at
    /// the writer's width with ` $` continuations.
    #[verifier::rlimit(60)]
    pub fn line_indent(&mut self, text: &[u8], indent: usize)
        requires
            2 * indent + 6 <= usize::MAX,
        ensures
            final(self).output@ == old(self).output@ + spec_wrap(
                text@,
                2 * indent as int,
                2 * indent as int + 4,
                old(self).width as int,
            ),
            final(self).width == old(self).width,
    {
        let mut lead_n: usize = 2 * indent;
        let cont_n: usize = 2 * indent + 4;
        let mut rest: Vec<u8> = slice_to_vec(text);
        let ghost target = old(self).output@ + spec_wrap(
            text@,
            2 * indent as int,
            2 * indent as int + 4,
            old(self).width as int,
        );
        loop
            invariant
                self.width == old(self).width,
                cont_n == 2 * indent + 4,
                cont_n + 2 <= usize::MAX,
                lead_n == 2 * indent || lead_n == cont_n,
                target == self.output@ + spec_wrap(
                    rest@,
                    lead_n as int,
                    cont_n as int,
                    self.width as int,
                ),
                target == old(self).output@ + spec_wrap(
                    text@,
                    2 * indent as int,
                    2 * indent as int + 4,
                    old(self).width as int,
                ),
            decreases rest@.len(),
        {
            let fits = rest.len() <= self.width && lead_n <= self.width - rest.len();
            let no_room = self.width < lead_n + 2;
            if fits || no_room {
                append_spaces(&mut self.output, lead_n);
                append_bytes(&mut self.output, rest.as_slice());
                self.output.push(10);
                proof {
                    assert(self.output@ =~= target);
                }
                return ;
            }
            let avail = self.width - lead_n - 2;
            proof {
                assert(avail < rest@.len());
            }
            match find_break(rest.as_slice(), avail) {
                None => {
                    append_spaces(&mut self.output, lead_n);
                    append_bytes(&mut self.output, rest.as_slice());
                    self.output.push(10);
                    proof {
                        assert(self.output@ =~= target);
                    }
                    return ;
                },
                Some(j) => {
                    append_spaces(&mut self.output, lead_n);
                    append_bytes(&mut self.output, slice_subrange(rest.as_slice(), 0, j));
                    self.output.push(32);
                    self.output.push(36);
                    self.output.push(10);
                    let next = slice_to_vec(slice_subrange(rest.as_slice(), j + 1, rest.len()));
                    proof {
                        assert(rest@.subrange(0, j as int) =~= rest@.take(j as int));
                        assert(next@ =~= rest@.skip(j + 1));
                        assert(target == self.output@ + spec_wrap(
                            next@,
                            cont_n as int,
                            cont_n as int,
                            self.width as int,
                        ));
                    }
                    rest = next;
                    lead_n = cont_n;
                },
            }
        }
    }

    /// Nothing is buffered outside the writer, so there is nothing to
    /// flush; the caller writes `output` to disk.
    pub fn flush(&mut self)
        ensures
            *final(self) == *old(self),
    {
    }

    /// Appends one `key = value` line under `indent` indent steps.
    pub fn variable_indent(&mut self, key: &str, value: &str, indent: usize)
        requires
            2 * indent + 6 <= usize::MAX,
        ensures
            final(self).output@ == old(self).output@ + spec_wrap(
                key.spec_bytes() + seq![32u8, 61u8, 32u8] + value.spec_bytes(),
                2 * indent as int,
                2 * indent as int + 4,
                old(self).width as int,
            ),
            final(self).width == old(self).width,
    {
        let mut buf: Vec<u8> = Vec::new();
        append_bytes(&mut buf, key.as_bytes());
        buf.push(32);
        buf.push(61);
        buf.push(32);
        append_bytes(&mut buf, value.as_bytes());
        proof {
            assert(buf@ =~= key.spec_bytes() + seq![32u8, 61u8, 32u8] + value.spec_bytes());
        }
        self.line_indent(buf.as_slice(), indent)
    }

    /// Appends one top-level `key = value` line.
    pub fn variable(&mut self, key: &str, value: &str)
        ensures
            final(self).output@ == old(self).output@ + spec_wrap(
                key.spec_bytes() + seq![32u8, 61u8, 32u8] + value.spec_bytes(),
                0,
                4,
                old(self).width as int,
            ),
            final(self).width == old(self).width,
    {
        self.variable_indent(key, value, 0)
    }

    /// Appends a pool declaration with its depth.
    pub fn pool(&mut self, name: &str, depth: &str)
        ensures
            final(self).output@ == old(self).output@ + spec_wrap(
                ("pool ").spec_bytes() + name.spec_bytes(),
                0,
                4,
                old(self).width as int,
            ) + spec_wrap(
                ("depth").spec_bytes() + seq![32u8, 61u8, 32u8] + depth.spec_bytes(),
                2,
                6,
                old(self).width as int,
            ),
            final(self).width == old(self).width,
    {
        let mut buf: Vec<u8> = Vec::new();
        append_bytes(&mut buf, "pool ".as_bytes());
        append_bytes(&mut buf, name.as_bytes());
        proof {
            assert(buf@ =~= ("pool ").spec_bytes() + name.spec_bytes());
        }
        self.line(buf.as_slice());
        self.variable_indent("depth", depth, 1)
    }

    /// Appends a subninja statement for the given path.
    pub fn subninja(&mut self, path: &str)
        ensures
            final(self).output@ == old(self).output@ + spec_wrap(
                ("subninja ").spec_bytes() + path.spec_bytes(),
                0,
                4,
                old(self).width as int,
            ),
            final(self).width == old(self).width,
    {
        let mut buf: Vec<u8> = Vec::new();
        append_bytes(&mut buf, "subninja ".as_bytes());
        append_bytes(&mut buf, path.as_bytes());
        proof {
            assert(buf@ =~= ("subninja ").spec_bytes() + path.spec_bytes());
        }
        self.line(buf.as_slice())
    }

    /// Appends the default-targets statement.
    pub fn default(&mut self, paths: &[&str])
        ensures
            final(self).output@ == old(self).output@ + spec_wrap(
                ("default ").spec_bytes() + spec_join_sp(plain_parts(paths@)),
                0,
                4,
                old(self).width as int,
            ),
            final(self).width == old(self).width,
    {
        let mut buf: Vec<u8> = Vec::new();
        append_bytes(&mut buf, "default ".as_bytes());
        push_joined_plain(&mut buf, paths);
        proof {
            assert(buf@ =~= ("default ").spec_bytes() + spec_join_sp(plain_parts(paths@)));
        }
        self.line(buf.as_slice())
    }
}

/// The byte-level scan of `$ ` to `$$ `.
pub open spec fn esc_dollar_space_b(s: Seq<u8>) -> Seq<u8>
    decreases s.len(),
{
    if s.len() < 2 {
        s
    } else if s[0] == 36 && s[1] == 32 {
        seq![36u8, 36u8, 32u8] + esc_dollar_space_b(s.skip(2))
    } else {
        seq![s[0]] + esc_dollar_space_b(s.skip(1))
    }
}

/// The byte-level scan of ` ` to `$ `.
pub open spec fn esc_space_b(s: Seq<u8>) -> Seq<u8>
    decreases s.len(),
{
    if s.len() == 0 {
        s
    } else if s[0] == 32 {
        seq![36u8, 32u8] + esc_space_b(s.skip(1))
    } else {
        seq![s[0]] + esc_space_b(s.skip(1))
    }
}

/// The byte-level scan of `:` to `$:`.
pub open spec fn esc_colon_b(s: Seq<u8>) -> Seq<u8>
    decreases s.len(),
{
    if s.len() == 0 {
        s
    } else if s[0] == 58 {
        seq![36u8, 58u8] + esc_colon_b(s.skip(1))
    } else {
        seq![s[0]] + esc_colon_b(s.skip(1))
    }
}

/// A path escaped for a build statement, at the byte level; the guarded
/// bytes are plain ASCII, so this is the text escape seen through UTF-8.
pub open spec fn esc_b(s: Seq<u8>) -> Seq<u8> {
    esc_colon_b(esc_space_b(esc_dollar_space_b(s)))
}

fn esc_dollar_space_b_exec(s: &[u8]) -> (r: Vec<u8>)
    ensures
        r@ == esc_dollar_space_b(s@),
{
    let n = s.len();
    let mut r: Vec<u8> = Vec::new();
    let mut i: usize = 0;
    proof {
        assert(s@.skip(0) =~= s@);
        assert(r@ + esc_dollar_space_b(s@) =~= esc_dollar_space_b(s@));
    }
    while i < n
        invariant
            i <= n,
            n == s@.len(),
            esc_dollar_space_b(s@) == r@ + esc_dollar_space_b(s@.skip(i as int)),
        decreases n - i,
    {
        if n >= 2 && i <= n - 2 && s[i] == 36 && s[i + 1] == 32 {
            r.push(36);
            r.push(36);
            r.push(32);
            proof {
                assert(s@.skip(i as int).skip(2) =~= s@.skip(i + 2));
                assert(s@.skip(i as int)[0] == 36 && s@.skip(i as int)[1] == 32);
                assert(esc_dollar_space_b(s@.skip(i as int)) == seq![36u8, 36u8, 32u8]
                    + esc_dollar_space_b(s@.skip(i + 2)));
            }
            i = i + 2;
        } else {
            r.push(s[i]);
            proof {
                assert(s@.skip(i as int).skip(1) =~= s@.skip(i + 1));
                assert(s@.skip(i as int)[0] == s@[i as int]);
                if s@.skip(i as int).len() < 2 {
                    assert(esc_dollar_space_b(s@.skip(i + 1)) =~= s@.skip(i + 1));
                    assert(esc_dollar_space_b(s@.skip(i as int)) =~= seq![s@[i as int]]
                        + esc_dollar_space_b(s@.skip(i + 1)));
                } else {
                    assert(esc_dollar_space_b(s@.skip(i as int)) == seq![s@[i as int]]
                        + esc_dollar_space_b(s@.skip(i + 1)));
                }
            }
            i = i + 1;
        }
        proof {
            assert(esc_dollar_space_b(s@) == r@ + esc_dollar_space_b(s@.skip(i as int)));
        }
    }
    proof {
        assert(s@.skip(n as int) =~= Seq::<u8>::empty());
        assert(r@ =~= esc_dollar_space_b(s@));
    }
    r
}

fn esc_byte_exec(s: &[u8], what: u8) -> (r: Vec<u8>)
    requires
        what == 32 || what == 58,
    ensures
        what == 32 ==> r@ == esc_space_b(s@),
        what == 58 ==> r@ == esc_colon_b(s@),
{
    let n = s.len();
    let mut r: Vec<u8> = Vec::new();
    let mut i: usize = 0;
    proof {
        assert(s@.skip(0) =~= s@);
        assert(r@ + esc_space_b(s@) =~= esc_space_b(s@));
        assert(r@ + esc_colon_b(s@) =~= esc_colon_b(s@));
    }
    while i < n
        invariant
            i <= n,
            n == s@.len(),
            what == 32 ==> esc_space_b(s@) == r@ + esc_space_b(s@.skip(i as int)),
            what == 58 ==> esc_colon_b(s@) == r@ + esc_colon_b(s@.skip(i as int)),
        decreases n - i,
    {
        let b = s[i];
        if b == what {
            r.push(36);
        }
        r.push(b);
        proof {
            assert(s@.skip(i as int).skip(1) =~= s@.skip(i + 1));
            assert(s@.skip(i as int)[0] == s@[i as int]);
        }
        i = i + 1;
    }
    proof {
        assert(s@.skip(n as int) =~= Seq::<u8>::empty());
        if what == 32 {
            assert(r@ =~= esc_space_b(s@));
        } else {
            assert(r@ =~= esc_colon_b(s@));
        }
    }
    r
}

/// Appends the escaped bytes of one path.
fn push_escaped(buf: &mut Vec<u8>, s: &str)
    ensures
        final(buf)@ == old(buf)@ + esc_b(s.spec_bytes()),
{
    let a = esc_dollar_space_b_exec(s.as_bytes());
    let b = esc_byte_exec(a.as_slice(), 32);
    let c = esc_byte_exec(b.as_slice(), 58);
    append_bytes(buf, c.as_slice());
}

/// The sections of a build statement's input or output list, already
/// escaped, with the `|` and `||` markers standing as their own parts.
pub open spec fn escaped_parts(parts: Seq<&str>) -> Seq<Seq<u8>> {
    parts.map_values(|p: &str| esc_b(p.spec_bytes()))
}

/// The parts of a plain path list, unescaped.
pub open spec fn plain_parts(parts: Seq<&str>) -> Seq<Seq<u8>> {
    parts.map_values(|p: &str| p.spec_bytes())
}

/// Parts joined with single spaces.
pub open spec fn spec_join_sp(parts: Seq<Seq<u8>>) -> Seq<u8>
    decreases parts.len(),
{
    if parts.len() == 0 {
        Seq::empty()
    } else if parts.len() == 1 {
        parts[0]
    } else {
        parts[0] + seq![32u8] + spec_join_sp(parts.skip(1))
    }
}

proof fn lemma_join_sp_snoc(parts: Seq<Seq<u8>>, p: Seq<u8>)
    ensures
        spec_join_sp(parts.push(p)) == if parts.len() == 0 {
            p
        } else {
            spec_join_sp(parts) + seq![32u8] + p
        },
    decreases parts.len(),
{
    if parts.len() == 0 {
        assert(parts.push(p)[0] == p);
        assert(parts.push(p).len() == 1);
    } else {
        assert(parts.push(p).skip(1) =~= parts.skip(1).push(p));
        lemma_join_sp_snoc(parts.skip(1), p);
        assert(parts.push(p)[0] == parts[0]);
        if parts.len() == 1 {
            assert(spec_join_sp(parts.push(p)) =~= spec_join_sp(parts) + seq![32u8] + p);
        } else {
            assert(spec_join_sp(parts.push(p)) =~= spec_join_sp(parts) + seq![32u8] + p);
        }
    }
}

/// Appends the paths, unescaped, joined with spaces.
fn push_joined_plain(buf: &mut Vec<u8>, paths: &[&str])
    ensures
        final(buf)@ == old(buf)@ + spec_join_sp(plain_parts(paths@)),
{
    let n = paths.len();
    let mut i: usize = 0;
    while i < n
        invariant
            i <= n,
            n == paths@.len(),
            buf@ == old(buf)@ + spec_join_sp(plain_parts(paths@.take(i as int))),
        decreases n - i,
    {
        if i > 0 {
            buf.push(32);
        }
        append_bytes(buf, paths[i].as_bytes());
        proof {
            assert(paths@.take(i + 1) =~= paths@.take(i as int).push(paths@[i as int]));
            assert(plain_parts(paths@.take(i + 1)) =~= plain_parts(paths@.take(i as int)).push(
                paths@[i as int].spec_bytes(),
            ));
            lemma_join_sp_snoc(
                plain_parts(paths@.take(i as int)),
                paths@[i as int].spec_bytes(),
            );
            assert(buf@ =~= old(buf)@ + spec_join_sp(plain_parts(paths@.take(i + 1))));
        }
        i = i + 1;
    }
    proof {
        assert(paths@.take(n as int) =~= paths@);
    }
}

/// The optional parts of a build statement.
#[derive(Debug)]
pub struct BuildOptions<'a> {
    /// The explicit inputs.
    pub inputs: Option<&'a [&'a str]>,
    /// Implicit inputs, written after a `|` marker.
    pub implicit: Option<&'a [&'a str]>,
    /// Order-only inputs, written after a `||` marker.
    pub order_only: Option<&'a [&'a str]>,
    /// Indented `key = value` lines after the statement, in order.
    pub variables: Option<Vec<(&'a str, &'a str)>>,
    /// Implicit outputs, written after a `|` marker on the output side.
    pub implicit_outputs: Option<&'a [&'a str]>,
    /// The pool the rule runs in.
    pub pool: Option<&'a str>,
}

impl<'a> Default for BuildOptions<'a> {
    /// No optional parts.
    fn default() -> (r: Self)
        ensures
            r.inputs is None,
            r.implicit is None,
            r.order_only is None,
            r.variables is None,
            r.implicit_outputs is None,
            r.pool is None,
    {
        BuildOptions {
            inputs: None,
            implicit: None,
            order_only: None,
            variables: None,
            implicit_outputs: None,
            pool: None,
        }
    }
}

/// The output-side parts of a build statement: the escaped outputs, then
/// the implicit outputs behind a `|` marker.
pub open spec fn build_out_parts(outputs: Seq<&str>, o: BuildOptions) -> Seq<Seq<u8>> {
    escaped_parts(outputs) + match o.implicit_outputs {
        Some(v) => seq![seq![124u8]] + escaped_parts(v@),
        None => Seq::empty(),
    }
}

/// The input-side parts of a build statement: the escaped inputs, the
/// implicit inputs behind `|`, and the order-only inputs behind `||`.
pub open spec fn build_in_parts(o: BuildOptions) -> Seq<Seq<u8>> {
    (match o.inputs {
        Some(v) => escaped_parts(v@),
        None => Seq::empty(),
    }) + (match o.implicit {
        Some(v) => seq![seq![124u8]] + escaped_parts(v@),
        None => Seq::empty(),
    }) + (match o.order_only {
        Some(v) => seq![seq![124u8, 124u8]] + escaped_parts(v@),
        None => Seq::empty(),
    })
}

/// The statement line of a build statement.
pub open spec fn build_line(outputs: Seq<&str>, rule: &str, o: BuildOptions) -> Seq<u8> {
    ("build ").spec_bytes() + spec_join_sp(build_out_parts(outputs, o)) + seq![58u8, 32u8]
        + rule.spec_bytes() + seq![32u8] + spec_join_sp(build_in_parts(o))
}

/// The indented variable lines after a build statement.
pub open spec fn vars_out(vars: Seq<(&str, &str)>, width: int) -> Seq<u8>
    decreases vars.len(),
{
    if vars.len() == 0 {
        Seq::empty()
    } else {
        spec_wrap(
            vars[0].0.spec_bytes() + seq![32u8, 61u8, 32u8] + vars[0].1.spec_bytes(),
            2,
            6,
            width,
        ) + vars_out(vars.skip(1), width)
    }
}

/// Everything a build statement appends: the statement line, the pool line
/// if a pool is named, and the variable lines.
pub open spec fn spec_build(outputs: Seq<&str>, rule: &str, o: BuildOptions, width: int) -> Seq<
    u8,
> {
    spec_wrap(build_line(outputs, rule, o), 0, 4, width) + (match o.pool {
        Some(p) => spec_wrap(("  pool = ").spec_bytes() + p.spec_bytes(), 0, 4, width),
        None => Seq::empty(),
    }) + (match o.variables {
        Some(vs) => vars_out(vs@, width),
        None => Seq::empty(),
    })
}

/// The byte views of a list of parts.
pub open spec fn pview(parts: Seq<Vec<u8>>) -> Seq<Seq<u8>> {
    parts.map_values(|v: Vec<u8>| v@)
}

/// Appends the paths, escaped, as further parts.
fn collect_escaped(parts: &mut Vec<Vec<u8>>, paths: &[&str])
    ensures
        pview(final(parts)@) == pview(old(parts)@) + escaped_parts(paths@),
{
    let n = paths.len();
    let mut i: usize = 0;
    while i < n
        invariant
            i <= n,
            n == paths@.len(),
            pview(parts@) == pview(old(parts)@) + escaped_parts(paths@.take(i as int)),
        decreases n - i,
    {
        let mut p: Vec<u8> = Vec::new();
        push_escaped(&mut p, paths[i]);
        let ghost pv = p@;
        let ghost before = parts@;
        parts.push(p);
        proof {
            assert(pv =~= esc_b(paths@[i as int].spec_bytes()));
            assert(pview(parts@) =~= pview(before).push(pv));
            assert(paths@.take(i + 1) =~= paths@.take(i as int).push(paths@[i as int]));
            assert(escaped_parts(paths@.take(i + 1)) =~= escaped_parts(paths@.take(i as int)).push(
                esc_b(paths@[i as int].spec_bytes()),
            ));
            assert(pview(parts@) =~= pview(old(parts)@) + escaped_parts(paths@.take(i + 1)));
        }
        i = i + 1;
    }
    proof {
        assert(paths@.take(n as int) =~= paths@);
        assert(pview(parts@) =~= pview(old(parts)@) + escaped_parts(paths@));
    }
}

/// The parts joined with single spaces.
fn join_parts(parts: &Vec<Vec<u8>>) -> (r: Vec<u8>)
    ensures
        r@ == spec_join_sp(pview(parts@)),
{
    let n = parts.len();
    let mut r: Vec<u8> = Vec::new();
    let mut i: usize = 0;
    proof {
        assert(pview(parts@.take(0)) =~= Seq::<Seq<u8>>::empty());
    }
    while i < n
        invariant
            i <= n,
            n == parts@.len(),
            r@ == spec_join_sp(pview(parts@.take(i as int))),
            i == 0 ==> r@.len() == 0,
            pview(parts@.take(i as int)).len() == i,
        decreases n - i,
    {
        if i > 0 {
            r.push(32);
        }
        append_bytes(&mut r, parts[i].as_slice());
        proof {
            assert(parts@.take(i + 1) =~= parts@.take(i as int).push(parts@[i as int]));
            assert(pview(parts@.take(i + 1)) =~= pview(parts@.take(i as int)).push(
                parts@[i as int]@,
            ));
            lemma_join_sp_snoc(pview(parts@.take(i as int)), parts@[i as int]@);
        }
        i = i + 1;
    }
    proof {
        assert(parts@.take(n as int) =~= parts@);
    }
    r
}

impl NinjaWritter {
    /// Appends one build statement: the outputs, the rule, and the inputs on
    /// one wrapped line, then the pool and the indented variables, if any.
    pub fn build(&mut self, outputs: &[&str], rule: &str, opts: BuildOptions)
        ensures
            final(self).output@ == old(self).output@ + spec_build(
                outputs@,
                rule,
                opts,
                old(self).width as int,
            ),
            final(self).width == old(self).width,
    {
        // the output side
        let mut out_parts: Vec<Vec<u8>> = Vec::new();
        collect_escaped(&mut out_parts, outputs);
        match opts.implicit_outputs {
            Some(v) => {
                let mut m: Vec<u8> = Vec::new();
                m.push(124);
                let ghost before = out_parts@;
                out_parts.push(m);
                proof {
                    assert(pview(out_parts@) =~= pview(before).push(seq![124u8]));
                }
                collect_escaped(&mut out_parts, v);
                proof {
                    assert(pview(out_parts@) =~= build_out_parts(outputs@, opts));
                }
            },
            None => {
                proof {
                    assert(pview(out_parts@) =~= build_out_parts(outputs@, opts));
                }
            },
        }
        // the input side
        let mut in_parts: Vec<Vec<u8>> = Vec::new();
        match opts.inputs {
            Some(v) => {
                collect_escaped(&mut in_parts, v);
            },
            None => {},
        }
        match opts.implicit {
            Some(v) => {
                let mut m: Vec<u8> = Vec::new();
                m.push(124);
                let ghost before = in_parts@;
                in_parts.push(m);
                proof {
                    assert(pview(in_parts@) =~= pview(before).push(seq![124u8]));
                }
                collect_escaped(&mut in_parts, v);
            },
            None => {},
        }
        match opts.order_only {
            Some(v) => {
                let mut m: Vec<u8> = Vec::new();
                m.push(124);
                m.push(124);
                proof {
                    assert(m@ =~= seq![124u8, 124u8]);
                }
                let ghost mv = m@;
                let ghost before = in_parts@;
                in_parts.push(m);
                proof {
                    assert(pview(in_parts@) =~= pview(before).push(mv));
                }
                collect_escaped(&mut in_parts, v);
            },
            None => {},
        }
        proof {
            assert(pview(in_parts@) =~= build_in_parts(opts));
        }
        // the statement line
        let mut buf: Vec<u8> = Vec::new();
        append_bytes(&mut buf, "build ".as_bytes());
        let joined_out = join_parts(&out_parts);
        append_bytes(&mut buf, joined_out.as_slice());
        buf.push(58);
        buf.push(32);
        append_bytes(&mut buf, rule.as_bytes());
        buf.push(32);
        let joined_in = join_parts(&in_parts);
        append_bytes(&mut buf, joined_in.as_slice());
        proof {
            assert(buf@ =~= build_line(outputs@, rule, opts));
        }
        self.line(buf.as_slice());
        // the pool line
        match opts.pool {
            Some(p) => {
                let mut pb: Vec<u8> = Vec::new();
                append_bytes(&mut pb, "  pool = ".as_bytes());
                append_bytes(&mut pb, p.as_bytes());
                proof {
                    assert(pb@ =~= ("  pool = ").spec_bytes() + p.spec_bytes());
                }
                self.line(pb.as_slice());
            },
            None => {},
        }
        // the variables
        match &opts.variables {
            Some(vs) => {
                let ghost w = self.width as int;
                let ghost target = self.output@ + vars_out(vs@, w);
                let n = vs.len();
                let mut i: usize = 0;
                proof {
                    assert(vs@.skip(0) =~= vs@);
                }
                while i < n
                    invariant
                        i <= n,
                        n == vs@.len(),
                        self.width == old(self).width,
                        w == self.width as int,
                        target == self.output@ + vars_out(vs@.skip(i as int), w),
                    decreases n - i,
                {
                    let (k, v) = vs[i];
                    self.variable_indent(k, v, 1);
                    proof {
                        assert(vs@.skip(i as int)[0] == vs@[i as int]);
                        assert(vs@.skip(i as int).skip(1) =~= vs@.skip(i + 1));
                    }
                    i = i + 1;
                }
                proof {
                    assert(vs@.skip(n as int) =~= Seq::<(&str, &str)>::empty());
                    assert(self.output@ =~= target);
                }
            },
            None => {},
        }
    }
}

/// The lines of a wrapped comment, each under a `# ` marker.
pub open spec fn spec_comment(lines: Seq<Seq<u8>>) -> Seq<u8>
    decreases lines.len(),
{
    if lines.len() == 0 {
        Seq::empty()
    } else {
        seq![35u8, 32u8] + lines[0] + seq![10u8] + spec_comment(lines.skip(1))
    }
}

/// The text broken into comment-width lines, never splitting a word; what
/// the lines are depends on the text and the width alone.
pub uninterp spec fn wrapped_of(s: Seq<char>, width: int) -> Seq<Seq<u8>>;

/// Relies on `textwrap::Wrapper` with `NoHyphenation` and `break_words`
/// off: the text split into lines at most `width` columns wide, breaking
/// only between words.
#[verifier::external_body]
fn wrap_no_break(text: &str, width: usize) -> (r: Vec<Vec<u8>>)
    ensures
        pview(r@) == wrapped_of(text@, width as int),
{
    let mut wr = textwrap::Wrapper::with_splitter(width, textwrap::NoHyphenation);
    wr.break_words = false;
    wr.wrap_iter(text).map(|l| l.as_bytes().to_vec()).collect()
}

impl NinjaWritter {
    /// Appends the text as a comment, wrapped to the width, each line under
    /// a `# ` marker.
    pub fn comment(&mut self, text: &str)
        requires
            old(self).width >= 2,
        ensures
            final(self).output@ == old(self).output@ + spec_comment(
                wrapped_of(text@, old(self).width - 2),
            ),
            final(self).width == old(self).width,
    {
        let lines = wrap_no_break(text, self.width - 2);
        let ghost target = self.output@ + spec_comment(wrapped_of(text@, self.width - 2));
        proof {
            assert(spec_comment(pview(lines@)) == spec_comment(
                wrapped_of(text@, self.width - 2),
            ));
        }
        let n = lines.len();
        let mut i: usize = 0;
        proof {
            assert(lines@.skip(0) =~= lines@);
        }
        while i < n
            invariant
                i <= n,
                n == lines@.len(),
                self.width == old(self).width,
                target == self.output@ + spec_comment(pview(lines@.skip(i as int))),
            decreases n - i,
        {
            self.output.push(35);
            self.output.push(32);
            append_bytes(&mut self.output, lines[i].as_slice());
            self.output.push(10);
            proof {
                assert(pview(lines@.skip(i as int))[0] == lines@[i as int]@);
                assert(pview(lines@.skip(i as int)).skip(1) =~= pview(lines@.skip(i + 1)));
                assert(spec_comment(pview(lines@.skip(i as int))) == seq![35u8, 32u8]
                    + lines@[i as int]@ + seq![10u8] + spec_comment(pview(lines@.skip(i + 1))));
                assert(target == self.output@ + spec_comment(pview(lines@.skip(i + 1))));
            }
            i = i + 1;
        }
        proof {
            assert(lines@.skip(n as int) =~= Seq::<Vec<u8>>::empty());
            assert(self.output@ =~= target);
        }
    }
}

} // verus!
