//! Text as bytes: runs of a class of bytes, the pieces between separators,
//! prefixes, and the lines of a table that count as comments.
use vstd::prelude::*;
use vstd::slice::slice_subrange;

verus! {

/// An ASCII digit, `0` to `9`.
pub open spec fn is_digit_byte(b: u8) -> bool {
    0x30 <= b <= 0x39
}

/// A space or a horizontal tab.
pub open spec fn is_space_byte(b: u8) -> bool {
    b == 0x20 || b == 0x09
}

/// Trusted: `nom::character::is_digit` answers whether a byte is one of the
/// ASCII digits `0` to `9`.
pub assume_specification[ nom::character::is_digit ](chr: u8) -> (r: bool)
    ensures
        r == is_digit_byte(chr),
;

/// Trusted: `nom::character::is_space` answers whether a byte is a space or a
/// horizontal tab.
pub assume_specification[ nom::character::is_space ](chr: u8) -> (r: bool)
    ensures
        r == is_space_byte(chr),
;

pub const LINE_FEED: u8 = 0x0A;

pub const COLON: u8 = 0x3A;

pub const HASH: u8 = 0x23;

/// A class of bytes that a run is made of.
#[derive(Clone, Copy, Debug)]
pub enum ByteClass {
    /// A space or a horizontal tab.
    Space,
    /// An ASCII digit.
    Digit,
    /// Any byte but the one given.
    Except(u8),
}

impl ByteClass {
    /// Whether `b` belongs to the class.
    pub open spec fn holds(self, b: u8) -> bool {
        match self {
            ByteClass::Space => is_space_byte(b),
            ByteClass::Digit => is_digit_byte(b),
            ByteClass::Except(other) => b != other,
        }
    }

    /// Whether `b` belongs to the class.
    pub fn has(self, b: u8) -> (r: bool)
        ensures
            r == self.holds(b),
    {
        match self {
            ByteClass::Space => nom::character::is_space(b),
            ByteClass::Digit => nom::character::is_digit(b),
            ByteClass::Except(other) => b != other,
        }
    }
}

/// How many bytes at the start of `s` belong to `class`, up to the first that
/// does not.
pub open spec fn run_len(s: Seq<u8>, class: ByteClass) -> nat
    decreases s.len(),
{
    if s.len() > 0 && class.holds(s[0]) {
        1 + run_len(s.drop_first(), class)
    } else {
        0
    }
}

/// A run ends where the text ends or at the first byte outside the class.
pub proof fn lemma_run_len(s: Seq<u8>, class: ByteClass, n: int)
    requires
        0 <= n <= s.len(),
        forall|i: int| 0 <= i < n ==> class.holds(#[trigger] s[i]),
        n < s.len() ==> !class.holds(s[n]),
    ensures
        run_len(s, class) == n,
    decreases n,
{
    if n > 0 {
        assert(class.holds(s[0]));
        let t = s.drop_first();
        assert forall|i: int| 0 <= i < n - 1 implies class.holds(#[trigger] t[i]) by {
            assert(t[i] == s[i + 1]);
        }
        lemma_run_len(t, class, n - 1);
    }
}

/// A run lies within the text, is made of bytes of the class alone, and is
/// followed by no byte of the class.
pub proof fn lemma_run_len_bounds(s: Seq<u8>, class: ByteClass)
    ensures
        run_len(s, class) <= s.len(),
        forall|i: int| 0 <= i < run_len(s, class) ==> class.holds(#[trigger] s[i]),
        run_len(s, class) < s.len() ==> !class.holds(s[run_len(s, class) as int]),
    decreases s.len(),
{
    if s.len() > 0 && class.holds(s[0]) {
        let t = s.drop_first();
        lemma_run_len_bounds(t, class);
        assert forall|i: int| 0 <= i < run_len(s, class) implies class.holds(#[trigger] s[i]) by {
            if i > 0 {
                assert(s[i] == t[i - 1]);
            }
        }
        if run_len(s, class) < s.len() {
            assert(s[run_len(s, class) as int] == t[run_len(t, class) as int]);
        }
    }
}

/// The end of the run of `class` that starts at `from`.
pub fn run_end(s: &[u8], from: usize, class: ByteClass) -> (end: usize)
    requires
        from <= s.len(),
    ensures
        from <= end <= s.len(),
        end - from == run_len(s@.skip(from as int), class),
{
    let mut end: usize = from;
    while end < s.len() && class.has(s[end])
        invariant
            from <= end <= s.len(),
            forall|i: int| from <= i < end ==> class.holds(#[trigger] s@[i]),
        decreases s.len() - end,
    {
        end = end + 1;
    }
    proof {
        let t = s@.skip(from as int);
        assert forall|i: int| 0 <= i < end - from implies class.holds(#[trigger] t[i]) by {
            assert(t[i] == s@[from + i]);
        }
        lemma_run_len(t, class, end - from);
    }
    end
}

/// The pieces of `s` between the occurrences of `sep`, in order: one more
/// piece than there are separators, so never none.
pub open spec fn split(s: Seq<u8>, sep: u8) -> Seq<Seq<u8>>
    decreases s.len(),
{
    let n = run_len(s, ByteClass::Except(sep)) as int;
    if n >= s.len() {
        seq![s]
    } else {
        seq![s.take(n)] + split(s.skip(n + 1), sep)
    }
}

/// The lines of `s`: its pieces between line feeds.
pub open spec fn lines(s: Seq<u8>) -> Seq<Seq<u8>> {
    split(s, LINE_FEED)
}

/// The pieces of what starts at `from` are the piece that ends at `end`, and
/// after it the pieces of what follows the separator.
pub proof fn lemma_split_step(s: Seq<u8>, sep: u8, from: int, end: int)
    requires
        0 <= from <= end <= s.len(),
        end - from == run_len(s.skip(from), ByteClass::Except(sep)),
    ensures
        end == s.len() ==> split(s.skip(from), sep) == seq![s.subrange(from, end)],
        end < s.len() ==> split(s.skip(from), sep) == seq![s.subrange(from, end)] + split(
            s.skip(end + 1),
            sep,
        ),
{
    let t = s.skip(from);
    let n = end - from;
    if end == s.len() {
        assert(t =~= s.subrange(from, end));
    } else {
        assert(t.take(n) =~= s.subrange(from, end));
        assert(t.skip(n + 1) =~= s.skip(end + 1));
    }
}

/// `s` begins with `prefix`.
pub open spec fn starts_with(s: Seq<u8>, prefix: Seq<u8>) -> bool {
    prefix.len() <= s.len() && s.take(prefix.len() as int) == prefix
}

/// Whether `s` begins with `prefix`.
pub fn has_prefix(s: &[u8], prefix: &[u8]) -> (r: bool)
    ensures
        r == starts_with(s@, prefix@),
{
    if prefix.len() > s.len() {
        return false;
    }
    let mut i: usize = 0;
    while i < prefix.len()
        invariant
            0 <= i <= prefix.len() <= s.len(),
            forall|k: int| 0 <= k < i ==> s@[k] == prefix@[k],
        decreases prefix.len() - i,
    {
        if s[i] != prefix[i] {
            assert(s@.take(prefix@.len() as int)[i as int] != prefix@[i as int]);
            return false;
        }
        i = i + 1;
    }
    assert(s@.take(prefix@.len() as int) =~= prefix@);
    true
}

/// The bytes of a text of ASCII characters.
pub open spec fn ascii(s: Seq<char>) -> Seq<u8> {
    Seq::new(s.len(), |i: int| s[i] as u8)
}

/// The bytes of a string of ASCII characters.
pub fn ascii_bytes(s: &str) -> (r: &[u8])
    requires
        s.is_ascii(),
    ensures
        r@ == ascii(s@),
{
    proof {
        vstd::string::is_ascii_spec_bytes(s);
    }
    s.as_bytes()
}

/// Appends the bytes of `s` to `out`.
pub fn append_bytes(out: &mut Vec<u8>, s: &[u8])
    ensures
        final(out)@ == old(out)@ + s@,
{
    let mut i: usize = 0;
    while i < s.len()
        invariant
            0 <= i <= s.len(),
            out@ == old(out)@ + s@.take(i as int),
        decreases s.len() - i,
    {
        out.push(s[i]);
        i = i + 1;
        assert(out@ =~= old(out)@ + s@.take(i as int));
    }
    assert(s@.take(i as int) =~= s@);
}

/// The length in bytes of the white-space character, in UTF-8, that `s`
/// begins with, and 0 where it begins with none. White space is what Unicode
/// marks as `White_Space`: U+0009 to U+000D, U+0020, U+0085, U+00A0, U+1680,
/// U+2000 to U+200A, U+2028, U+2029, U+202F, U+205F and U+3000.
pub open spec fn white_space_len(s: Seq<u8>) -> nat {
    if s.len() >= 1 && (0x09 <= s[0] <= 0x0D || s[0] == 0x20) {
        1
    } else if s.len() >= 2 && s[0] == 0xC2 && (s[1] == 0x85 || s[1] == 0xA0) {
        2
    } else if s.len() >= 3 && s[0] == 0xE1 && s[1] == 0x9A && s[2] == 0x80 {
        3
    } else if s.len() >= 3 && s[0] == 0xE2 && s[1] == 0x80 && (0x80 <= s[2] <= 0x8A || s[2] == 0xA8
        || s[2] == 0xA9 || s[2] == 0xAF) {
        3
    } else if s.len() >= 3 && s[0] == 0xE2 && s[1] == 0x81 && s[2] == 0x9F {
        3
    } else if s.len() >= 3 && s[0] == 0xE3 && s[1] == 0x80 && s[2] == 0x80 {
        3
    } else {
        0
    }
}

/// How many bytes of white space `s` begins with.
pub open spec fn leading_white_space(s: Seq<u8>) -> nat
    decreases s.len(),
{
    let w = white_space_len(s);
    if w == 0 {
        0
    } else {
        w + leading_white_space(s.skip(w as int))
    }
}

/// A line that holds no row: white space alone, or `#` as its first
/// character after white space.
pub open spec fn is_comment(line: Seq<u8>) -> bool {
    let n = leading_white_space(line) as int;
    n >= line.len() || line[n] == HASH
}

/// The length of the white-space character at `i`, or 0.
fn white_space_at(s: &[u8], i: usize) -> (w: usize)
    requires
        i <= s.len(),
    ensures
        w == white_space_len(s@.skip(i as int)),
        i + w <= s.len(),
{
    let rest = s.len() - i;
    proof {
        let t = s@.skip(i as int);
        assert(t.len() == rest);
        assert(rest >= 1 ==> t[0] == s@[i as int]);
        assert(rest >= 2 ==> t[1] == s@[i + 1]);
        assert(rest >= 3 ==> t[2] == s@[i + 2]);
    }
    if rest >= 1 && ((0x09 <= s[i] && s[i] <= 0x0D) || s[i] == 0x20) {
        1
    } else if rest >= 2 && s[i] == 0xC2 && (s[i + 1] == 0x85 || s[i + 1] == 0xA0) {
        2
    } else if rest >= 3 && s[i] == 0xE1 && s[i + 1] == 0x9A && s[i + 2] == 0x80 {
        3
    } else if rest >= 3 && s[i] == 0xE2 && s[i + 1] == 0x80 && ((0x80 <= s[i + 2] && s[i + 2]
        <= 0x8A) || s[i + 2] == 0xA8 || s[i + 2] == 0xA9 || s[i + 2] == 0xAF) {
        3
    } else if rest >= 3 && s[i] == 0xE2 && s[i + 1] == 0x81 && s[i + 2] == 0x9F {
        3
    } else if rest >= 3 && s[i] == 0xE3 && s[i + 1] == 0x80 && s[i + 2] == 0x80 {
        3
    } else {
        0
    }
}

/// Whether a line holds no row.
pub fn is_comment_line(line: &[u8]) -> (r: bool)
    ensures
        r == is_comment(line@),
{
    let mut i: usize = 0;
    assert(line@.skip(0) =~= line@);
    loop
        invariant
            0 <= i <= line.len(),
            leading_white_space(line@) == i + leading_white_space(line@.skip(i as int)),
        decreases line.len() - i,
    {
        let w = white_space_at(line, i);
        if w == 0 {
            return i >= line.len() || line[i] == HASH;
        }
        proof {
            assert(line@.skip(i as int).skip(w as int) =~= line@.skip(i + w));
        }
        i = i + w;
    }
}

/// The pieces in order, with `sep` between each two.
pub open spec fn join(parts: Seq<Seq<u8>>, sep: u8) -> Seq<u8>
    decreases parts.len(),
{
    if parts.len() == 0 {
        Seq::empty()
    } else if parts.len() == 1 {
        parts[0]
    } else {
        join(parts.drop_last(), sep).push(sep) + parts.last()
    }
}

/// Whether a line holds a row.
pub open spec fn holds_row() -> spec_fn(Seq<u8>) -> bool {
    |line: Seq<u8>| !is_comment(line)
}

/// Joining takes the first piece, the separator, and what joining the other
/// pieces gives.
proof fn lemma_join_first(parts: Seq<Seq<u8>>, sep: u8)
    requires
        parts.len() >= 2,
    ensures
        join(parts, sep) == parts[0].push(sep) + join(parts.drop_first(), sep),
    decreases parts.len(),
{
    let tail = parts.drop_first();
    if parts.len() == 2 {
        assert(parts.drop_last().drop_last() =~= Seq::<Seq<u8>>::empty());
        assert(tail.drop_last() =~= Seq::<Seq<u8>>::empty());
        assert(join(parts.drop_last(), sep) == parts[0]);
        assert(join(tail, sep) == parts[1]);
        assert(join(parts, sep) =~= parts[0].push(sep) + join(tail, sep));
    } else {
        let head = parts.drop_last();
        lemma_join_first(head, sep);
        assert(head.drop_first() =~= tail.drop_last());
        assert(join(parts, sep) == join(head, sep).push(sep) + parts.last());
        assert(join(tail, sep) == join(tail.drop_last(), sep).push(sep) + tail.last());
        assert(join(parts, sep) =~= parts[0].push(sep) + join(tail, sep));
    }
}

/// Splitting cuts a text at its separators and loses nothing else: no piece
/// holds the separator, and the pieces joined by it are the text again.
pub proof fn lemma_split_join(s: Seq<u8>, sep: u8)
    ensures
        split(s, sep).len() >= 1,
        forall|i: int, j: int|
            0 <= i < split(s, sep).len() && 0 <= j < split(s, sep)[i].len() ==> #[trigger] split(
                s,
                sep,
            )[i][j] != sep,
        join(split(s, sep), sep) == s,
    decreases s.len(),
{
    let class = ByteClass::Except(sep);
    let n = run_len(s, class) as int;
    lemma_run_len_bounds(s, class);
    let pieces = split(s, sep);
    if n >= s.len() {
        assert(pieces =~= seq![s]);
    } else {
        let rest = s.skip(n + 1);
        let others = split(rest, sep);
        lemma_split_join(rest, sep);
        assert(pieces =~= seq![s.take(n)] + others);
        assert(pieces.drop_first() =~= others);
        lemma_join_first(pieces, sep);
        assert(s.take(n).push(sep) + rest =~= s);
        assert forall|i: int, j: int|
            0 <= i < pieces.len() && 0 <= j < pieces[i].len() implies #[trigger] pieces[i][j]
            != sep by {
            if i == 0 {
                assert(pieces[0][j] == s[j]);
            } else {
                assert(pieces[i] == others[i - 1]);
            }
        }
    }
}

/// The lines of `text` that hold rows.
pub open spec fn row_lines(text: Seq<u8>) -> Seq<Seq<u8>> {
    lines(text).filter(holds_row())
}

/// `text` without its comment lines: the lines that hold rows, with a line
/// feed between each two.
pub open spec fn without_comments(text: Seq<u8>) -> Seq<u8> {
    join(row_lines(text), LINE_FEED)
}

/// Removes from a table the lines that hold no row.
pub fn strip_comments(text: &[u8]) -> (r: Vec<u8>)
    ensures
        r@ == without_comments(text@),
{
    let mut out: Vec<u8> = Vec::new();
    let mut any = false;
    let mut start: usize = 0;
    let mut done = false;
    let ghost mut seen: Seq<Seq<u8>> = Seq::empty();
    proof {
        assert(text@.skip(0) =~= text@);
        reveal(Seq::filter);
    }
    while !done
        invariant
            0 <= start <= text.len(),
            done ==> lines(text@) == seen,
            !done ==> lines(text@) == seen + lines(text@.skip(start as int)),
            any <==> seen.filter(holds_row()).len() > 0,
            out@ == join(seen.filter(holds_row()), LINE_FEED),
        decreases text.len() - start + if done { 0int } else { 1int },
    {
        let end = run_end(text, start, ByteClass::Except(LINE_FEED));
        let line = slice_subrange(text, start, end);
        proof {
            lemma_split_step(text@, LINE_FEED, start as int, end as int);
            reveal(Seq::filter);
            assert(seen.push(line@).drop_last() =~= seen);
            assert(seen + seq![line@] =~= seen.push(line@));
        }
        if !is_comment_line(line) {
            if any {
                out.push(LINE_FEED);
            }
            append_bytes(&mut out, line);
            any = true;
            proof {
                let now = seen.push(line@).filter(holds_row());
                assert(now == seen.filter(holds_row()).push(line@));
                assert(now.drop_last() =~= seen.filter(holds_row()));
            }
        }
        proof {
            if end < text.len() {
                assert(seen + (seq![line@] + lines(text@.skip(end + 1))) =~= seen.push(line@)
                    + lines(text@.skip(end + 1)));
            }
            seen = seen.push(line@);
        }
        if end == text.len() {
            done = true;
        } else {
            start = end + 1;
        }
    }
    out
}

} // verus!
