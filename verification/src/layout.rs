//! How a log record is laid out as text.
//!
//! A record is written as `TIME: LVL CTX: MESSAGE` on one line.  A message
//! with `n > 1` lines (one more than its number of `'\n'`) is written as `n`
//! lines `TIME: LVL CTX [i/n]: LINE`, where `i` is zero padded to the width
//! of `n`; a message that ends with a newline thus ends with an empty
//! numbered line.  The level is zero padded to three digits.
//!
//! The layout is a list of segments, each a piece of text with the color it
//! is shown in when the output is colorized.
use crate::digits::{decimal, decimal_digits, zero_padded};
use crate::levels::{level_color_spec, Color};
use vstd::prelude::*;

verus! {

broadcast use vstd::string::axiom_spec_iter;

/// A piece of text and the color it is shown in, if any.
pub type SegmentView = (Seq<char>, Option<Color>);

/// A piece of a log line.
pub struct Segment {
    pub text: Vec<char>,
    pub color: Option<Color>,
}

/// What a segment stands for.
pub open spec fn segment_view(s: Segment) -> SegmentView {
    (s.text@, s.color)
}

/// What a list of segments stands for.
pub open spec fn segment_views(segs: Seq<Segment>) -> Seq<SegmentView> {
    segs.map_values(|s: Segment| segment_view(s))
}

// ---------------------------------------------------------------------------
// Splitting a message into lines
/// Number of `'\n'` characters in `s`.
pub open spec fn count_newlines(s: Seq<char>) -> nat
    decreases s.len(),
{
    if s.len() == 0 {
        0
    } else {
        count_newlines(s.drop_last()) + if s.last() == '\n' {
            1nat
        } else {
            0nat
        }
    }
}

/// Number of lines a message is written on.
pub open spec fn line_count(s: Seq<char>) -> nat {
    count_newlines(s) + 1
}

/// The message's last character is a newline.
pub open spec fn ends_with_newline(s: Seq<char>) -> bool {
    s.len() > 0 && s.last() == '\n'
}

/// The pieces of `s` between its `'\n'` characters (one more piece than newlines).
pub open spec fn split_lines(s: Seq<char>) -> Seq<Seq<char>>
    decreases s.len(),
{
    if s.len() == 0 {
        seq![Seq::<char>::empty()]
    } else {
        let p = split_lines(s.drop_last());
        if s.last() == '\n' {
            p.push(Seq::<char>::empty())
        } else {
            p.update(p.len() - 1, p.last().push(s.last()))
        }
    }
}

/// Drops one trailing carriage return.
pub open spec fn strip_cr(p: Seq<char>) -> Seq<char> {
    if p.len() > 0 && p.last() == '\r' {
        p.drop_last()
    } else {
        p
    }
}

/// Line `i` of a message: a piece ended by `"\n"` or `"\r\n"` loses that
/// ending; the final piece is kept as it is.
pub open spec fn nth_line(s: Seq<char>, i: int) -> Seq<char> {
    let p = split_lines(s);
    if i < p.len() - 1 {
        strip_cr(p[i])
    } else {
        p[i]
    }
}

/// Joins pieces with `'\n'` between them.
pub open spec fn join_lines(p: Seq<Seq<char>>) -> Seq<char>
    decreases p.len(),
{
    if p.len() <= 1 {
        if p.len() == 0 {
            Seq::empty()
        } else {
            p[0]
        }
    } else {
        join_lines(p.drop_last()) + seq!['\n'] + p.last()
    }
}

/// There is one piece per line, and the last piece is empty exactly when the
/// message ends with a newline.
pub proof fn lemma_split_lines_shape(s: Seq<char>)
    ensures
        split_lines(s).len() == line_count(s),
        split_lines(s).last().len() == 0 <==> (s.len() == 0 || ends_with_newline(s)),
    decreases s.len(),
{
    if s.len() > 0 {
        lemma_split_lines_shape(s.drop_last());
    }
}

/// Splitting a message into lines loses nothing: joining the pieces with
/// newlines gives the message back.
pub proof fn lemma_split_lines_rejoin(s: Seq<char>)
    ensures
        join_lines(split_lines(s)) == s,
    decreases s.len(),
{
    if s.len() > 0 {
        let prefix = s.drop_last();
        lemma_split_lines_rejoin(prefix);
        lemma_split_lines_shape(prefix);
        let p = split_lines(prefix);
        if s.last() == '\n' {
            let q = p.push(Seq::<char>::empty());
            assert(q.drop_last() =~= p);
            assert(join_lines(q) =~= s);
        } else {
            let q = p.update(p.len() - 1, p.last().push(s.last()));
            if p.len() == 1 {
                assert(q[0] =~= s);
            } else {
                assert(q.drop_last() =~= p.drop_last());
                assert(join_lines(q) =~= join_lines(p) + seq![s.last()]);
            }
            assert(join_lines(q) =~= s);
        }
    }
}

/// No line of a message contains a newline.
pub proof fn lemma_split_lines_no_newline(s: Seq<char>, i: int, j: int)
    requires
        0 <= i < split_lines(s).len(),
        0 <= j < split_lines(s)[i].len(),
    ensures
        split_lines(s)[i][j] != '\n',
    decreases s.len(),
{
    if s.len() > 0 {
        lemma_split_lines_shape(s.drop_last());
        let p = split_lines(s.drop_last());
        if s.last() == '\n' {
            if i < p.len() {
                lemma_split_lines_no_newline(s.drop_last(), i, j);
            }
        } else {
            if i < p.len() - 1 || j < p.last().len() {
                lemma_split_lines_no_newline(s.drop_last(), i, j);
            }
        }
    }
}

/// Copies a vector of characters.
pub(crate) fn copy_chars(v: &Vec<char>) -> (r: Vec<char>)
    ensures
        r@ == v@,
{
    let mut r: Vec<char> = Vec::new();
    let mut i: usize = 0;
    while i < v.len()
        invariant
            i <= v@.len(),
            r@ == v@.take(i as int),
        decreases v@.len() - i,
    {
        r.push(v[i]);
        i = i + 1;
        assert(r@ =~= v@.take(i as int));
    }
    assert(r@ =~= v@);
    r
}

/// The characters of a string.
pub fn chars_of(s: &str) -> (v: Vec<char>)
    ensures
        v@ == s@,
{
    let mut v: Vec<char> = Vec::new();
    for c in it: s.chars()
        invariant
            v@ == it.seq().take(it.index() as int),
    {
        v.push(c);
    }
    assert(v@ =~= s@);
    v
}

/// Builds a string from its characters with std's `String::from_iter`; the
/// contract claims the string holds exactly those characters, in order.
#[verifier::external_body]
pub(crate) fn string_of(chars: &Vec<char>) -> (s: String)
    ensures
        s@ == chars@,
{
    String::from_iter(chars.iter())
}

/// Splits a message into its lines (see `nth_line`).
pub fn split_message(msg: &Vec<char>) -> (lines: Vec<Vec<char>>)
    ensures
        lines@.len() == line_count(msg@),
        forall|i: int| 0 <= i < lines@.len() ==> #[trigger] lines@[i]@ == nth_line(msg@, i),
{
    let mut done: Vec<Vec<char>> = Vec::new();
    let mut current: Vec<char> = Vec::new();
    let mut i: usize = 0;
    proof {
        assert(msg@.take(0) =~= Seq::<char>::empty());
    }
    while i < msg.len()
        invariant
            i <= msg@.len(),
            split_lines(msg@.take(i as int)).len() == done@.len() + 1,
            forall|j: int|
                0 <= j < done@.len() ==> #[trigger] done@[j]@ == strip_cr(
                    split_lines(msg@.take(i as int))[j],
                ),
            current@ == split_lines(msg@.take(i as int)).last(),
        decreases msg@.len() - i,
    {
        let c = msg[i];
        let ghost before = msg@.take(i as int);
        proof {
            assert(msg@.take(i + 1).drop_last() =~= before);
            assert(msg@.take(i + 1).last() == c);
        }
        if c == '\n' {
            let mut finished = current;
            let len = finished.len();
            if len > 0 && finished[len - 1] == '\r' {
                finished.pop();
            }
            assert(finished@ =~= strip_cr(split_lines(before).last()));
            done.push(finished);
            current = Vec::new();
        } else {
            current.push(c);
        }
        i = i + 1;
        assert(current@ =~= split_lines(msg@.take(i as int)).last());
    }
    proof {
        assert(msg@.take(msg@.len() as int) =~= msg@);
        lemma_split_lines_shape(msg@);
    }
    done.push(current);
    done
}

// ---------------------------------------------------------------------------
// The layout of a record
/// `": "`
pub open spec fn colon_space() -> Seq<char> {
    seq![':', ' ']
}

/// The color of a segment: `color` when colorizing, none otherwise.
pub open spec fn tint(palette: Option<(Color, Color)>, color: Color) -> Option<Color> {
    match palette {
        Some(_) => Some(color),
        None => None,
    }
}

/// The color of the timestamp.
pub open spec fn time_tint(palette: Option<(Color, Color)>) -> Option<Color> {
    match palette {
        Some((t, _)) => Some(t),
        None => None,
    }
}

/// The color of the message text.
pub open spec fn message_tint(palette: Option<(Color, Color)>) -> Option<Color> {
    match palette {
        Some((_, m)) => Some(m),
        None => None,
    }
}

/// `[index/total]`, with `index` zero padded to the width of `total`.
pub open spec fn counter_label(index: nat, total: nat) -> Seq<char> {
    seq!['['] + zero_padded(index, decimal_digits(total)) + seq!['/'] + decimal(total) + seq![']']
}

/// `TIME: LVL CTX`, the start of every line of a record.
pub open spec fn line_head(
    now: Seq<char>,
    level: u8,
    ctx: Seq<char>,
    palette: Option<(Color, Color)>,
) -> Seq<SegmentView> {
    seq![
        (now, time_tint(palette)),
        (colon_space(), None),
        (zero_padded(level as nat, 3), tint(palette, level_color_spec(level))),
        (seq![' '], None),
        (ctx, tint(palette, Color::BrightGreen)),
    ]
}

/// The single line of a record whose message has no newline.
pub open spec fn single_line(
    now: Seq<char>,
    level: u8,
    ctx: Seq<char>,
    msg: Seq<char>,
    palette: Option<(Color, Color)>,
) -> Seq<SegmentView> {
    line_head(now, level, ctx, palette) + seq![
        (colon_space(), None),
        (msg, message_tint(palette)),
        (seq!['\n'], None),
    ]
}

/// Line `i` (from 0) of a record whose message spans several lines.
pub open spec fn numbered_line(
    now: Seq<char>,
    level: u8,
    ctx: Seq<char>,
    msg: Seq<char>,
    i: nat,
    palette: Option<(Color, Color)>,
) -> Seq<SegmentView> {
    let n = line_count(msg);
    line_head(now, level, ctx, palette) + seq![
        (seq![' '], None),
        (counter_label(i + 1, n), tint(palette, Color::BrightYellow)),
        (colon_space(), None),
    ] + (if i + 1 == n && ends_with_newline(msg) {
        Seq::<SegmentView>::empty()
    } else {
        seq![(nth_line(msg, i as int), message_tint(palette))]
    }) + seq![(seq!['\n'], None)]
}

/// The first `k` numbered lines of a record.
pub open spec fn numbered_lines(
    now: Seq<char>,
    level: u8,
    ctx: Seq<char>,
    msg: Seq<char>,
    k: nat,
    palette: Option<(Color, Color)>,
) -> Seq<SegmentView>
    decreases k,
{
    if k == 0 {
        Seq::empty()
    } else {
        numbered_lines(now, level, ctx, msg, (k - 1) as nat, palette) + numbered_line(
            now,
            level,
            ctx,
            msg,
            (k - 1) as nat,
            palette,
        )
    }
}

/// All segments of a record; `palette` holds the timestamp and message
/// colors when colorizing.
pub open spec fn record_segments(
    now: Seq<char>,
    level: u8,
    ctx: Seq<char>,
    msg: Seq<char>,
    palette: Option<(Color, Color)>,
) -> Seq<SegmentView> {
    if line_count(msg) == 1 {
        single_line(now, level, ctx, msg, palette)
    } else {
        numbered_lines(now, level, ctx, msg, line_count(msg), palette)
    }
}

/// The text of a list of segments.
pub open spec fn segments_text(segs: Seq<SegmentView>) -> Seq<char>
    decreases segs.len(),
{
    if segs.len() == 0 {
        Seq::empty()
    } else {
        segments_text(segs.drop_last()) + segs.last().0
    }
}

/// The text of a record written without colors.
pub open spec fn plain_record(now: Seq<char>, level: u8, ctx: Seq<char>, msg: Seq<char>) -> Seq<
    char,
> {
    segments_text(record_segments(now, level, ctx, msg, None))
}

/// The text of the segments in `segs` does not depend on their colors.
pub open spec fn same_texts(a: Seq<SegmentView>, b: Seq<SegmentView>) -> bool {
    a.len() == b.len() && forall|i: int| 0 <= i < a.len() ==> #[trigger] a[i].0 == b[i].0
}

proof fn lemma_same_texts_concat(a1: Seq<SegmentView>, b1: Seq<SegmentView>, a2: Seq<SegmentView>, b2: Seq<SegmentView>)
    requires
        same_texts(a1, b1),
        same_texts(a2, b2),
    ensures
        same_texts(a1 + a2, b1 + b2),
{
    assert forall|i: int| 0 <= i < (a1 + a2).len() implies #[trigger] (a1 + a2)[i].0 == (b1
        + b2)[i].0 by {
        if i < a1.len() {
            assert(a1[i].0 == b1[i].0);
        } else {
            assert(a2[i - a1.len()].0 == b2[i - a1.len()].0);
        }
    }
}

proof fn lemma_same_texts_text(a: Seq<SegmentView>, b: Seq<SegmentView>)
    requires
        same_texts(a, b),
    ensures
        segments_text(a) == segments_text(b),
    decreases a.len(),
{
    if a.len() > 0 {
        assert(a.last().0 == b.last().0);
        lemma_same_texts_text(a.drop_last(), b.drop_last());
    }
}

proof fn lemma_numbered_lines_same_texts(
    now: Seq<char>,
    level: u8,
    ctx: Seq<char>,
    msg: Seq<char>,
    k: nat,
    palette: Option<(Color, Color)>,
)
    ensures
        same_texts(
            numbered_lines(now, level, ctx, msg, k, palette),
            numbered_lines(now, level, ctx, msg, k, None),
        ),
    decreases k,
{
    if k > 0 {
        lemma_numbered_lines_same_texts(now, level, ctx, msg, (k - 1) as nat, palette);
        let a = numbered_line(now, level, ctx, msg, (k - 1) as nat, palette);
        let b = numbered_line(now, level, ctx, msg, (k - 1) as nat, None);
        assert(same_texts(a, b));
        lemma_same_texts_concat(
            numbered_lines(now, level, ctx, msg, (k - 1) as nat, palette),
            numbered_lines(now, level, ctx, msg, (k - 1) as nat, None),
            a,
            b,
        );
    }
}

/// Colors never change the text of a record: without escape sequences a
/// colorized record reads exactly like a plain one.
pub proof fn lemma_colors_keep_text(
    now: Seq<char>,
    level: u8,
    ctx: Seq<char>,
    msg: Seq<char>,
    palette: Option<(Color, Color)>,
)
    ensures
        segments_text(record_segments(now, level, ctx, msg, palette)) == plain_record(
            now,
            level,
            ctx,
            msg,
        ),
{
    let a = record_segments(now, level, ctx, msg, palette);
    let b = record_segments(now, level, ctx, msg, None);
    if line_count(msg) == 1 {
        assert(same_texts(a, b));
    } else {
        lemma_numbered_lines_same_texts(now, level, ctx, msg, line_count(msg), palette);
    }
    lemma_same_texts_text(a, b);
}

} // verus!

verus! {

/// A line of a message loses at most its line ending: a line that ended in
/// `"\r\n"` loses the carriage return, every other line is the piece between
/// two newlines in full; the last line is kept as it is.
pub proof fn lemma_nth_line_keeps_text(s: Seq<char>, i: int)
    requires
        0 <= i < line_count(s),
    ensures
        i < line_count(s) - 1 && split_lines(s)[i].len() > 0 && split_lines(s)[i].last() == '\r'
            ==> nth_line(s, i).push('\r') == split_lines(s)[i],
        !(i < line_count(s) - 1 && split_lines(s)[i].len() > 0 && split_lines(s)[i].last()
            == '\r') ==> nth_line(s, i) == split_lines(s)[i],
        nth_line(s, i).len() + 1 >= split_lines(s)[i].len(),
        forall|j: int| 0 <= j < nth_line(s, i).len() ==> #[trigger] nth_line(s, i)[j] == split_lines(s)[i][j],
{
    lemma_split_lines_shape(s);
    let p = split_lines(s)[i];
    if i < line_count(s) - 1 && p.len() > 0 && p.last() == '\r' {
        assert(p.drop_last().push('\r') =~= p);
    }
}

} // verus!
