//! Rendering log records as text, plain or colorized.
use crate::digits::{
    count_digits_base_10, decimal, decimal_digits, digit_char, push_decimal, push_zero_padded,
    zero_padded,
};
use crate::layout::{
    lemma_colors_keep_text, lemma_split_lines_shape, split_lines,
    chars_of, colon_space, copy_chars, counter_label, ends_with_newline, line_count, line_head,
    nth_line, numbered_line, numbered_lines, plain_record, record_segments, segment_view,
    segment_views, segments_text, single_line, split_message, string_of, message_tint, time_tint,
    tint, Segment, SegmentView,
};
use crate::levels::{level_color, Color};
use colored::Colorize;
use vstd::prelude::*;

verus! {

/// How the logger thread formats the current local time: short month name,
/// day, year, `hh:mm:ss`, nine-digit fraction of a second and UTC offset.
pub const TIMESTAMP_FORMAT: &'static str = "%b %-d %-Y %H:%M:%S%.9f%z";

/// A decimal digit.
pub open spec fn is_digit(c: char) -> bool {
    '0' <= c <= '9'
}

/// A non-empty run of decimal digits.
pub open spec fn all_digits(s: Seq<char>) -> bool {
    s.len() > 0 && forall|i: int| 0 <= i < s.len() ==> is_digit(#[trigger] s[i])
}

/// One of the English three-letter month names.
pub open spec fn month_abbreviation(m: Seq<char>) -> bool {
    ||| m == seq!['J', 'a', 'n']
    ||| m == seq!['F', 'e', 'b']
    ||| m == seq!['M', 'a', 'r']
    ||| m == seq!['A', 'p', 'r']
    ||| m == seq!['M', 'a', 'y']
    ||| m == seq!['J', 'u', 'n']
    ||| m == seq!['J', 'u', 'l']
    ||| m == seq!['A', 'u', 'g']
    ||| m == seq!['S', 'e', 'p']
    ||| m == seq!['O', 'c', 't']
    ||| m == seq!['N', 'o', 'v']
    ||| m == seq!['D', 'e', 'c']
}

/// A year as `chrono` writes it unpadded: digits, with a sign in front for
/// years outside `0 ..= 9999`.
pub open spec fn year_text(y: Seq<char>) -> bool {
    all_digits(y) || (y.len() >= 2 && (y[0] == '+' || y[0] == '-') && all_digits(y.drop_first()))
}

/// `hh:mm:ss.nnnnnnnnn+hhmm`: two-digit hour, minute and second, a nine-digit
/// fraction, and the UTC offset as a sign and four digits.
pub open spec fn clock_text(t: Seq<char>) -> bool {
    &&& t.len() == 23
    &&& all_digits(t.subrange(0, 2)) && t[2] == ':'
    &&& all_digits(t.subrange(3, 5)) && t[5] == ':'
    &&& all_digits(t.subrange(6, 8)) && t[8] == '.'
    &&& all_digits(t.subrange(9, 18))
    &&& (t[18] == '+' || t[18] == '-')
    &&& all_digits(t.subrange(19, 23))
}

/// The shape of a time written with `TIMESTAMP_FORMAT`: month name, day (one
/// or two digits), year, and the clock, separated by single spaces.
pub open spec fn timestamp_shape(s: Seq<char>) -> bool {
    exists|day_len: int, year_len: int|
        {
            &&& 1 <= day_len <= 2
            &&& year_len >= 1
            &&& s.len() == 6 + day_len + year_len + 23
            &&& month_abbreviation(s.subrange(0, 3))
            &&& s[3] == ' '
            &&& all_digits(s.subrange(4, 4 + day_len))
            &&& s[4 + day_len] == ' '
            &&& #[trigger] year_text(s.subrange(5 + day_len, 5 + day_len + year_len))
            &&& s[5 + day_len + year_len] == ' '
            &&& clock_text(s.subrange(6 + day_len + year_len, s.len() as int))
        }
}

/// The current local time, formatted with `chrono` according to `format`.
///
/// Calls `chrono::Local::now().format(format)`.  Which time comes out
/// depends on the clock and the machine's time zone and is not stated; its
/// shape is, from chrono's format fields for `TIMESTAMP_FORMAT`: `%b` the
/// English short month name, `%-d` the unpadded day, `%-Y` the unpadded year
/// (signed outside `0 ..= 9999`), `%H:%M:%S` two digits each, `%.9f` a dot
/// and nine digits, `%z` a sign and four digits.  The format is required to
/// be `TIMESTAMP_FORMAT`, which `chrono` accepts.
#[verifier::external_body]
fn local_time(format: &str) -> (now: String)
    requires
        format@ == TIMESTAMP_FORMAT@,
    ensures
        timestamp_shape(now@),
{
    chrono::Local::now().format(format).to_string()
}

/// The SGR code `colored` uses for a foreground color.
pub open spec fn ansi_code(c: Color) -> Seq<char> {
    match c {
        Color::Red => seq!['3', '1'],
        Color::Green => seq!['3', '2'],
        Color::Yellow => seq!['3', '3'],
        Color::Blue => seq!['3', '4'],
        Color::Magenta => seq!['3', '5'],
        Color::Cyan => seq!['3', '6'],
        Color::BrightGreen => seq!['9', '2'],
        Color::BrightYellow => seq!['9', '3'],
        Color::BrightBlue => seq!['9', '4'],
        Color::BrightMagenta => seq!['9', '5'],
    }
}

/// The escape sequence that switches the foreground to `c`.
pub open spec fn ansi_start(c: Color) -> Seq<char> {
    seq!['\x1b', '['] + ansi_code(c) + seq!['m']
}

/// The escape sequence that resets all styling.
pub open spec fn ansi_reset() -> Seq<char> {
    seq!['\x1b', '[', '0', 'm']
}

/// `t` holds a reset sequence somewhere.
pub open spec fn contains_reset(t: Seq<char>) -> bool {
    exists|i: int| 0 <= i && i + 4 <= t.len() && #[trigger] t.subrange(i, i + 4) == ansi_reset()
}

/// `r` is how `text` may come out when shown in `color`: unchanged when
/// uncolored or when the terminal is not colorized, and otherwise wrapped
/// in the color's escape sequence and a reset.  `colored` asks its
/// process-wide colorize switch more than once while rendering, so a switch
/// flipped by another thread mid-way may also leave the text followed by a
/// bare reset.  For text holding a reset sequence (which `colored` rewrites)
/// nothing more is said.
pub open spec fn painting(text: Seq<char>, color: Option<Color>, r: Seq<char>) -> bool {
    match color {
        None => r == text,
        Some(c) => r == text || (!contains_reset(text) ==> (r == ansi_start(c) + text
            + ansi_reset() || r == text + ansi_reset())),
    }
}

/// Joins pieces of text.
pub open spec fn concat_pieces(pieces: Seq<Seq<char>>) -> Seq<char>
    decreases pieces.len(),
{
    if pieces.len() == 0 {
        Seq::empty()
    } else {
        concat_pieces(pieces.drop_last()) + pieces.last()
    }
}

/// `out` is the segments' texts, each painted in its color.
pub open spec fn is_painting_of(segs: Seq<SegmentView>, out: Seq<char>) -> bool {
    exists|pieces: Seq<Seq<char>>|
        pieces.len() == segs.len() && (forall|j: int|
            0 <= j < segs.len() ==> painting(segs[j].0, segs[j].1, #[trigger] pieces[j]))
            && out == concat_pieces(pieces)
}

/// No segment has a color.
pub open spec fn uncolored(segs: Seq<SegmentView>) -> bool {
    forall|j: int| 0 <= j < segs.len() ==> (#[trigger] segs[j]).1 is None
}

/// Shows `text` in `color` with `colored`.
///
/// Calls `colored::Colorize::color` and renders the resulting
/// `ColoredString` with its `Display` impl.  `colored` decides from its
/// process-wide switch (set from `NO_COLOR`, `CLICOLOR`, `CLICOLOR_FORCE` and
/// whether stdout is a terminal, or by `colored::control::set_override`)
/// whether to emit escape sequences; the contract states the outcomes of
/// `painting`.  How it rewrites reset sequences inside the text is not
/// stated.
#[verifier::external_body]
fn paint(text: &str, color: Color) -> (r: String)
    ensures
        painting(text@, Some(color), r@),
{
    let c = match color {
        Color::Red => colored::Color::Red,
        Color::Yellow => colored::Color::Yellow,
        Color::Green => colored::Color::Green,
        Color::Cyan => colored::Color::Cyan,
        Color::Magenta => colored::Color::Magenta,
        Color::Blue => colored::Color::Blue,
        Color::BrightBlue => colored::Color::BrightBlue,
        Color::BrightMagenta => colored::Color::BrightMagenta,
        Color::BrightGreen => colored::Color::BrightGreen,
        Color::BrightYellow => colored::Color::BrightYellow,
    };
    text.color(c).to_string()
}

/// Appends `v` to `out`.
fn append_chars(out: &mut Vec<char>, v: &Vec<char>)
    ensures
        final(out)@ == old(out)@ + v@,
{
    let ghost start = out@;
    let mut i: usize = 0;
    while i < v.len()
        invariant
            i <= v@.len(),
            out@ == start + v@.take(i as int),
        decreases v@.len() - i,
    {
        out.push(v[i]);
        i = i + 1;
        assert(out@ =~= start + v@.take(i as int));
    }
    assert(v@.take(v@.len() as int) =~= v@);
}

proof fn lemma_uncolored_pieces(segs: Seq<SegmentView>, pieces: Seq<Seq<char>>)
    requires
        pieces.len() == segs.len(),
        forall|j: int| 0 <= j < segs.len() ==> painting(segs[j].0, segs[j].1, #[trigger] pieces[j]),
        uncolored(segs),
    ensures
        concat_pieces(pieces) == segments_text(segs),
    decreases segs.len(),
{
    if segs.len() > 0 {
        let n = segs.len() - 1;
        assert(segs[n].1 is None);
        assert(painting(segs[n].0, segs[n].1, pieces[n]));
        assert forall|j: int| 0 <= j < segs.drop_last().len() implies painting(
            segs.drop_last()[j].0,
            segs.drop_last()[j].1,
            #[trigger] pieces.drop_last()[j],
        ) by {
            assert(painting(segs[j].0, segs[j].1, pieces[j]));
        }
        assert forall|j: int| 0 <= j < segs.drop_last().len() implies (
        #[trigger] segs.drop_last()[j]).1 is None by {
            assert(segs[j].1 is None);
        }
        lemma_uncolored_pieces(segs.drop_last(), pieces.drop_last());
    }
}

/// Writes out segments, painting those that have a color.
pub fn render_segments(segs: &Vec<Segment>) -> (out: Vec<char>)
    ensures
        is_painting_of(segment_views(segs@), out@),
        uncolored(segment_views(segs@)) ==> out@ == segments_text(segment_views(segs@)),
{
    let ghost views = segment_views(segs@);
    let ghost mut pieces: Seq<Seq<char>> = Seq::empty();
    let mut out: Vec<char> = Vec::new();
    let mut j: usize = 0;
    while j < segs.len()
        invariant
            views == segment_views(segs@),
            j <= segs@.len(),
            pieces.len() == j,
            forall|k: int| 0 <= k < j ==> painting(views[k].0, views[k].1, #[trigger] pieces[k]),
            out@ == concat_pieces(pieces),
        decreases segs@.len() - j,
    {
        let seg = &segs[j];
        let ghost piece: Seq<char>;
        match seg.color {
            None => {
                append_chars(&mut out, &seg.text);
                proof {
                    piece = seg.text@;
                }
            },
            Some(c) => {
                let text = string_of(&seg.text);
                let painted = paint(text.as_str(), c);
                let painted_chars = chars_of(painted.as_str());
                append_chars(&mut out, &painted_chars);
                proof {
                    piece = painted_chars@;
                }
            },
        }
        proof {
            let next = pieces.push(piece);
            assert(next.drop_last() =~= pieces);
            assert forall|k: int| 0 <= k < j + 1 implies painting(
                views[k].0,
                views[k].1,
                #[trigger] next[k],
            ) by {
                if k < j {
                    assert(next[k] == pieces[k]);
                }
            }
            pieces = next;
        }
        j = j + 1;
    }
    proof {
        assert(pieces.len() == views.len());
        if uncolored(views) {
            lemma_uncolored_pieces(views, pieces);
        }
    }
    out
}

// ---------------------------------------------------------------------------
// Building the layout
proof fn lemma_views_push(segs: Seq<Segment>, s: Segment)
    ensures
        segment_views(segs.push(s)) == segment_views(segs).push(segment_view(s)),
{
    assert(segment_views(segs.push(s)) =~= segment_views(segs).push(segment_view(s)));
}

fn push_segment(segs: &mut Vec<Segment>, text: Vec<char>, color: Option<Color>)
    ensures
        segment_views(final(segs)@) == segment_views(old(segs)@).push((text@, color)),
{
    let s = Segment { text, color };
    proof {
        lemma_views_push(old(segs)@, s);
    }
    segs.push(s);
}

fn colon_space_chars() -> (v: Vec<char>)
    ensures
        v@ == colon_space(),
{
    let mut v: Vec<char> = Vec::new();
    v.push(':');
    v.push(' ');
    assert(v@ =~= colon_space());
    v
}

fn single_char(c: char) -> (v: Vec<char>)
    ensures
        v@ == seq![c],
{
    let mut v: Vec<char> = Vec::new();
    v.push(c);
    assert(v@ =~= seq![c]);
    v
}

fn tint_of(palette: Option<(Color, Color)>, color: Color) -> (r: Option<Color>)
    ensures
        r == tint(palette, color),
{
    match palette {
        Some(_) => Some(color),
        None => None,
    }
}

fn time_tint_of(palette: Option<(Color, Color)>) -> (r: Option<Color>)
    ensures
        r == time_tint(palette),
{
    match palette {
        Some((t, _)) => Some(t),
        None => None,
    }
}

fn message_tint_of(palette: Option<(Color, Color)>) -> (r: Option<Color>)
    ensures
        r == message_tint(palette),
{
    match palette {
        Some((_, m)) => Some(m),
        None => None,
    }
}

fn counter_label_chars(index: usize, total: usize) -> (v: Vec<char>)
    ensures
        v@ == counter_label(index as nat, total as nat),
{
    let mut v: Vec<char> = Vec::new();
    v.push('[');
    let width = count_digits_base_10(total);
    push_zero_padded(&mut v, index, width);
    v.push('/');
    push_decimal(&mut v, total);
    v.push(']');
    assert(v@ =~= counter_label(index as nat, total as nat));
    v
}

fn push_line_head(
    segs: &mut Vec<Segment>,
    now: &Vec<char>,
    level: u8,
    ctx: &Vec<char>,
    palette: Option<(Color, Color)>,
)
    ensures
        segment_views(final(segs)@) == segment_views(old(segs)@) + line_head(
            now@,
            level,
            ctx@,
            palette,
        ),
{
    let ghost start = segment_views(segs@);
    push_segment(segs, copy_chars(now), time_tint_of(palette));
    push_segment(segs, colon_space_chars(), None);
    let mut lvl: Vec<char> = Vec::new();
    push_zero_padded(&mut lvl, level as usize, 3);
    push_segment(segs, lvl, tint_of(palette, level_color(level)));
    push_segment(segs, single_char(' '), None);
    push_segment(segs, copy_chars(ctx), tint_of(palette, Color::BrightGreen));
    assert(segment_views(segs@) =~= start + line_head(now@, level, ctx@, palette));
}

/// Lays out a record as segments.
pub fn record_layout(
    now: &Vec<char>,
    level: u8,
    ctx: &Vec<char>,
    msg: &Vec<char>,
    palette: Option<(Color, Color)>,
) -> (segs: Vec<Segment>)
    ensures
        segment_views(segs@) == record_segments(now@, level, ctx@, msg@, palette),
{
    let lines = split_message(msg);
    let n = lines.len();
    let mut segs: Vec<Segment> = Vec::new();
    proof {
        assert(segment_views(segs@) =~= Seq::<SegmentView>::empty());
    }
    if n == 1 {
        push_line_head(&mut segs, now, level, ctx, palette);
        push_segment(&mut segs, colon_space_chars(), None);
        push_segment(&mut segs, copy_chars(msg), message_tint_of(palette));
        push_segment(&mut segs, single_char('\n'), None);
        assert(segment_views(segs@) =~= single_line(now@, level, ctx@, msg@, palette));
    } else {
        let msg_len = msg.len();
        let ends_nl = msg_len > 0 && msg[msg_len - 1] == '\n';
        let mut i: usize = 0;
        while i < n
            invariant
                i <= n,
                n == lines@.len(),
                n == line_count(msg@),
                ends_nl == ends_with_newline(msg@),
                forall|k: int| 0 <= k < lines@.len() ==> #[trigger] lines@[k]@ == nth_line(msg@, k),
                segment_views(segs@) == numbered_lines(now@, level, ctx@, msg@, i as nat, palette),
            decreases n - i,
        {
            let ghost start = segment_views(segs@);
            push_line_head(&mut segs, now, level, ctx, palette);
            push_segment(&mut segs, single_char(' '), None);
            push_segment(
                &mut segs,
                counter_label_chars(i + 1, n),
                tint_of(palette, Color::BrightYellow),
            );
            push_segment(&mut segs, colon_space_chars(), None);
            if !(i + 1 == n && ends_nl) {
                push_segment(&mut segs, copy_chars(&lines[i]), message_tint_of(palette));
            }
            push_segment(&mut segs, single_char('\n'), None);
            assert(segment_views(segs@) =~= start + numbered_line(
                now@,
                level,
                ctx@,
                msg@,
                i as nat,
                palette,
            ));
            i = i + 1;
        }
    }
    segs
}

proof fn lemma_numbered_lines_uncolored(
    now: Seq<char>,
    level: u8,
    ctx: Seq<char>,
    msg: Seq<char>,
    k: nat,
)
    ensures
        uncolored(numbered_lines(now, level, ctx, msg, k, None)),
    decreases k,
{
    if k > 0 {
        lemma_numbered_lines_uncolored(now, level, ctx, msg, (k - 1) as nat);
        let a = numbered_lines(now, level, ctx, msg, (k - 1) as nat, None);
        let b = numbered_line(now, level, ctx, msg, (k - 1) as nat, None);
        assert(uncolored(b));
        assert forall|j: int| 0 <= j < (a + b).len() implies (#[trigger] (a + b)[j]).1 is None by {
            if j < a.len() {
                assert(a[j].1 is None);
            } else {
                assert(b[j - a.len()].1 is None);
            }
        }
    }
}

/// Without a palette no segment of a record has a color.
proof fn lemma_plain_record_uncolored(now: Seq<char>, level: u8, ctx: Seq<char>, msg: Seq<char>)
    ensures
        uncolored(record_segments(now, level, ctx, msg, None)),
{
    if line_count(msg) != 1 {
        lemma_numbered_lines_uncolored(now, level, ctx, msg, line_count(msg));
    }
}

// ---------------------------------------------------------------------------
// Records
/// The timestamp and message colors after the color counter moved to `counter`:
/// blue and bright blue on even counts, magenta and bright magenta on odd ones.
pub open spec fn palette_for(counter: usize) -> (Color, Color) {
    if counter == 0 {
        (Color::Blue, Color::BrightBlue)
    } else {
        (Color::Magenta, Color::BrightMagenta)
    }
}

/// The color counter after one more colorized record.
pub open spec fn next_color_counter(counter: usize) -> usize {
    ((counter + 1) % 2) as usize
}

/// Renders a record without colors: the whole record as it is written.
pub fn do_write_nocolor(now: &str, lvl: u8, ctx: &str, msg: &str) -> (text: String)
    ensures
        text@ == plain_record(now@, lvl, ctx@, msg@),
{
    let segs = record_layout(&chars_of(now), lvl, &chars_of(ctx), &chars_of(msg), None);
    proof {
        lemma_plain_record_uncolored(now@, lvl, ctx@, msg@);
    }
    let out = render_segments(&segs);
    string_of(&out)
}

/// Renders a record with colors, alternating the timestamp and message
/// colors from one record to the next through `color_counter`.
pub fn do_write_color(
    now: &str,
    lvl: u8,
    ctx: &str,
    msg: &str,
    color_counter: &mut usize,
) -> (text: String)
    requires
        *old(color_counter) < usize::MAX,
    ensures
        *final(color_counter) == next_color_counter(*old(color_counter)),
        *final(color_counter) == (*old(color_counter) + 1) % 2,
        *final(color_counter) == 0 ==> palette_for(*final(color_counter)) == (
            Color::Blue,
            Color::BrightBlue,
        ),
        *final(color_counter) == 1 ==> palette_for(*final(color_counter)) == (
            Color::Magenta,
            Color::BrightMagenta,
        ),
        is_painting_of(
            record_segments(now@, lvl, ctx@, msg@, Some(palette_for(*final(color_counter)))),
            text@,
        ),
{
    *color_counter = (*color_counter + 1) % 2;
    let palette = if *color_counter == 0 {
        (Color::Blue, Color::BrightBlue)
    } else {
        (Color::Magenta, Color::BrightMagenta)
    };
    let segs = record_layout(&chars_of(now), lvl, &chars_of(ctx), &chars_of(msg), Some(palette));
    let out = render_segments(&segs);
    string_of(&out)
}

/// Renders a record stamped with the current local time, colorized or not.
pub fn do_write(
    lvl: u8,
    ctx: &str,
    msg: &str,
    colorize: bool,
    color_counter: &mut usize,
) -> (text: String)
    requires
        colorize ==> *old(color_counter) < usize::MAX,
    ensures
        colorize ==> *final(color_counter) == next_color_counter(*old(color_counter)),
        colorize ==> exists|now: Seq<char>|
            timestamp_shape(now) && is_painting_of(
                #[trigger] record_segments(now, lvl, ctx@, msg@, Some(palette_for(*final(color_counter)))),
                text@,
            ),
        colorize && esc_free(ctx@) && esc_free(msg@) ==> exists|now: Seq<char>|
            timestamp_shape(now) && strip_escapes(text@) == #[trigger] plain_record(
                now,
                lvl,
                ctx@,
                msg@,
            ),
        !colorize ==> *final(color_counter) == *old(color_counter),
        !colorize ==> exists|now: Seq<char>|
            timestamp_shape(now) && text@ == #[trigger] plain_record(now, lvl, ctx@, msg@),
{
    let now = local_time(TIMESTAMP_FORMAT);
    if colorize {
        let text = do_write_color(now.as_str(), lvl, ctx, msg, color_counter);
        proof {
            if esc_free(ctx@) && esc_free(msg@) {
                lemma_timestamp_esc_free(now@);
                lemma_colorized_record_strips_to_plain(
                    now@,
                    lvl,
                    ctx@,
                    msg@,
                    palette_for(*color_counter),
                    text@,
                );
                assert(timestamp_shape(now@) && strip_escapes(text@) == plain_record(
                    now@,
                    lvl,
                    ctx@,
                    msg@,
                ));
            }
        }
        text
    } else {
        do_write_nocolor(now.as_str(), lvl, ctx, msg)
    }
}

} // verus!

verus! {

/// The color counter alternates between two states, so colorized records
/// alternate between the blue and the magenta palette.
pub proof fn lemma_color_counter_alternates(counter: usize)
    requires
        counter < 2,
    ensures
        next_color_counter(counter) < 2,
        next_color_counter(next_color_counter(counter)) == counter,
        palette_for(next_color_counter(counter)) != palette_for(counter),
        palette_for(next_color_counter(counter)).0 != palette_for(counter).0,
        palette_for(next_color_counter(counter)).1 != palette_for(counter).1,
{
}

/// The palettes themselves: even records have a blue timestamp and a bright
/// blue message, odd records a magenta timestamp and a bright magenta
/// message; the first record of a logger (counter moving from 0 to 1) is odd.
pub proof fn lemma_palettes(counter: usize)
    requires
        counter < 2,
    ensures
        counter == 0 ==> palette_for(counter) == (Color::Blue, Color::BrightBlue),
        counter == 1 ==> palette_for(counter) == (Color::Magenta, Color::BrightMagenta),
        palette_for(next_color_counter(0)) == (Color::Magenta, Color::BrightMagenta),
{
}

/// When the terminal is not colorized (every segment comes out unchanged) a
/// colorized record reads exactly like the plain one.
pub proof fn lemma_unstyled_painting_is_plain(
    now: Seq<char>,
    level: u8,
    ctx: Seq<char>,
    msg: Seq<char>,
    palette: (Color, Color),
    pieces: Seq<Seq<char>>,
)
    requires
        pieces.len() == record_segments(now, level, ctx, msg, Some(palette)).len(),
        forall|j: int|
            0 <= j < pieces.len() ==> #[trigger] pieces[j] == record_segments(
                now,
                level,
                ctx,
                msg,
                Some(palette),
            )[j].0,
    ensures
        concat_pieces(pieces) == plain_record(now, level, ctx, msg),
{
    let segs = record_segments(now, level, ctx, msg, Some(palette));
    lemma_pieces_are_texts(segs, pieces);
    lemma_colors_keep_text(now, level, ctx, msg, Some(palette));
}

proof fn lemma_pieces_are_texts(segs: Seq<SegmentView>, pieces: Seq<Seq<char>>)
    requires
        pieces.len() == segs.len(),
        forall|j: int| 0 <= j < pieces.len() ==> #[trigger] pieces[j] == segs[j].0,
    ensures
        concat_pieces(pieces) == segments_text(segs),
    decreases segs.len(),
{
    if segs.len() > 0 {
        let n = segs.len() - 1;
        assert(pieces[n] == segs[n].0);
        assert forall|j: int| 0 <= j < pieces.drop_last().len() implies #[trigger] pieces.drop_last()[j]
            == segs.drop_last()[j].0 by {
            assert(pieces[j] == segs[j].0);
        }
        lemma_pieces_are_texts(segs.drop_last(), pieces.drop_last());
    }
}

} // verus!

verus! {

// ---------------------------------------------------------------------------
// Removing escape sequences
/// `s` holds no escape character.
pub open spec fn esc_free(s: Seq<char>) -> bool {
    forall|i: int| 0 <= i < s.len() ==> #[trigger] s[i] != '\x1b'
}

/// `s` with every escape sequence (from an escape character up to and
/// including the next `'m'`) removed.
pub open spec fn strip_escapes(s: Seq<char>) -> Seq<char>
    decreases s.len(),
{
    if s.len() == 0 {
        Seq::empty()
    } else if s[0] == '\x1b' {
        skip_escape(s.drop_first())
    } else {
        seq![s[0]] + strip_escapes(s.drop_first())
    }
}

/// The rest of `s` after the `'m'` that ends an escape sequence, with its
/// escape sequences removed.
pub open spec fn skip_escape(s: Seq<char>) -> Seq<char>
    decreases s.len(),
{
    if s.len() == 0 {
        Seq::empty()
    } else if s[0] == 'm' {
        strip_escapes(s.drop_first())
    } else {
        skip_escape(s.drop_first())
    }
}

proof fn lemma_strip_plain_prefix(t: Seq<char>, r: Seq<char>)
    requires
        esc_free(t),
    ensures
        strip_escapes(t + r) == t + strip_escapes(r),
    decreases t.len(),
{
    if t.len() == 0 {
        assert(t + r =~= r);
    } else {
        assert(t[0] != '\x1b');
        assert((t + r)[0] == t[0]);
        assert((t + r).drop_first() =~= t.drop_first() + r);
        lemma_strip_plain_prefix(t.drop_first(), r);
        assert(seq![t[0]] + (t.drop_first() + strip_escapes(r)) =~= t + strip_escapes(r));
    }
}

proof fn lemma_skip_until_m(s: Seq<char>, k: int, m: int)
    requires
        0 <= k <= m < s.len(),
        s[m] == 'm',
        forall|i: int| k <= i < m ==> #[trigger] s[i] != 'm',
    ensures
        skip_escape(s.subrange(k, s.len() as int)) == strip_escapes(s.subrange(m + 1, s.len() as int)),
    decreases m - k,
{
    let rest = s.subrange(k, s.len() as int);
    assert(rest[0] == s[k]);
    assert(rest.drop_first() =~= s.subrange(k + 1, s.len() as int));
    if k < m {
        lemma_skip_until_m(s, k + 1, m);
    }
}

proof fn lemma_strip_sequence(e: Seq<char>, r: Seq<char>)
    requires
        e.len() >= 2,
        e[0] == '\x1b',
        e.last() == 'm',
        forall|i: int| 1 <= i < e.len() - 1 ==> #[trigger] e[i] != 'm',
    ensures
        strip_escapes(e + r) == strip_escapes(r),
{
    let s = e + r;
    assert(s[0] == '\x1b');
    assert forall|i: int| 1 <= i < e.len() - 1 implies #[trigger] s[i] != 'm' by {
        assert(s[i] == e[i]);
    }
    lemma_skip_until_m(s, 1, e.len() - 1);
    assert(s.drop_first() =~= s.subrange(1, s.len() as int));
    assert(s.subrange(e.len() as int, s.len() as int) =~= r);
}

proof fn lemma_strip_start(c: Color, r: Seq<char>)
    ensures
        strip_escapes(ansi_start(c) + r) == strip_escapes(r),
{
    lemma_strip_sequence(ansi_start(c), r);
}

proof fn lemma_strip_reset(r: Seq<char>)
    ensures
        strip_escapes(ansi_reset() + r) == strip_escapes(r),
{
    lemma_strip_sequence(ansi_reset(), r);
}

proof fn lemma_strip_painting(text: Seq<char>, color: Option<Color>, piece: Seq<char>, r: Seq<char>)
    requires
        esc_free(text),
        painting(text, color, piece),
    ensures
        strip_escapes(piece + r) == text + strip_escapes(r),
{
    if contains_reset(text) {
        let i = choose|i: int|
            0 <= i && i + 4 <= text.len() && #[trigger] text.subrange(i, i + 4) == ansi_reset();
        assert(text.subrange(i, i + 4)[0] == text[i]);
    }
    lemma_strip_plain_prefix(text, r);
    lemma_strip_reset(r);
    lemma_strip_plain_prefix(text, ansi_reset() + r);
    match color {
        Some(c) => {
            if piece == ansi_start(c) + text + ansi_reset() {
                assert(piece + r =~= ansi_start(c) + (text + (ansi_reset() + r)));
                lemma_strip_start(c, text + (ansi_reset() + r));
            } else if piece == text + ansi_reset() {
                assert(piece + r =~= text + (ansi_reset() + r));
            }
        },
        None => {},
    }
}

proof fn lemma_strip_pieces(segs: Seq<SegmentView>, pieces: Seq<Seq<char>>, r: Seq<char>)
    requires
        pieces.len() == segs.len(),
        forall|j: int| 0 <= j < segs.len() ==> painting(segs[j].0, segs[j].1, #[trigger] pieces[j]),
        forall|j: int| 0 <= j < segs.len() ==> esc_free(#[trigger] segs[j].0),
    ensures
        strip_escapes(concat_pieces(pieces) + r) == segments_text(segs) + strip_escapes(r),
    decreases segs.len(),
{
    if segs.len() == 0 {
        assert(concat_pieces(pieces) + r =~= r);
        assert(segments_text(segs) + strip_escapes(r) =~= strip_escapes(r));
    } else {
        let n = segs.len() - 1;
        assert(painting(segs[n].0, segs[n].1, pieces[n]));
        assert(esc_free(segs[n].0));
        lemma_strip_painting(segs[n].0, segs[n].1, pieces[n], r);
        assert forall|j: int| 0 <= j < segs.drop_last().len() implies painting(
            segs.drop_last()[j].0,
            segs.drop_last()[j].1,
            #[trigger] pieces.drop_last()[j],
        ) by {
            assert(painting(segs[j].0, segs[j].1, pieces[j]));
        }
        assert forall|j: int| 0 <= j < segs.drop_last().len() implies esc_free(
            #[trigger] segs.drop_last()[j].0,
        ) by {
            assert(esc_free(segs[j].0));
        }
        lemma_strip_pieces(segs.drop_last(), pieces.drop_last(), pieces[n] + r);
        assert(concat_pieces(pieces) + r =~= concat_pieces(pieces.drop_last()) + (pieces[n] + r));
        assert(segments_text(segs.drop_last()) + (segs[n].0 + strip_escapes(r)) =~= segments_text(
            segs,
        ) + strip_escapes(r));
    }
}

} // verus!

verus! {

/// Every segment's text is free of escape characters.
pub open spec fn texts_esc_free(segs: Seq<SegmentView>) -> bool {
    forall|j: int| 0 <= j < segs.len() ==> esc_free(#[trigger] segs[j].0)
}

proof fn lemma_digit_not_escape(d: nat)
    requires
        d < 10,
    ensures
        digit_char(d) != '\x1b',
{
    if d == 0 {
    } else if d == 1 {
    } else if d == 2 {
    } else if d == 3 {
    } else if d == 4 {
    } else if d == 5 {
    } else if d == 6 {
    } else if d == 7 {
    } else if d == 8 {
    } else {
    }
}

proof fn lemma_decimal_esc_free(n: nat)
    ensures
        esc_free(decimal(n)),
    decreases n,
{
    lemma_digit_not_escape(n % 10);
    if n >= 10 {
        lemma_decimal_esc_free(n / 10);
    }
}

proof fn lemma_zero_padded_esc_free(n: nat, width: nat)
    ensures
        esc_free(zero_padded(n, width)),
{
    lemma_decimal_esc_free(n);
    let d = decimal(n);
    if d.len() < width {
        let z = Seq::new((width - d.len()) as nat, |i: int| '0') + d;
        assert forall|i: int| 0 <= i < z.len() implies #[trigger] z[i] != '\x1b' by {
            if i >= width - d.len() {
                assert(z[i] == d[i - (width - d.len())]);
            }
        }
    }
}

proof fn lemma_split_lines_esc_free(s: Seq<char>, i: int)
    requires
        esc_free(s),
        0 <= i < split_lines(s).len(),
    ensures
        esc_free(split_lines(s)[i]),
    decreases s.len(),
{
    if s.len() > 0 {
        let p = s.drop_last();
        lemma_split_lines_shape(p);
        assert(esc_free(p));
        let ps = split_lines(p);
        if s.last() == '\n' {
            if i < ps.len() {
                lemma_split_lines_esc_free(p, i);
            }
        } else {
            lemma_split_lines_esc_free(p, i);
            if i == ps.len() - 1 {
                assert(s.last() == s[s.len() - 1]);
            }
        }
    }
}

proof fn lemma_nth_line_esc_free(s: Seq<char>, i: int)
    requires
        esc_free(s),
        0 <= i < line_count(s),
    ensures
        esc_free(nth_line(s, i)),
{
    lemma_split_lines_shape(s);
    lemma_split_lines_esc_free(s, i);
}

proof fn lemma_concat_esc_free(a: Seq<SegmentView>, b: Seq<SegmentView>)
    requires
        texts_esc_free(a),
        texts_esc_free(b),
    ensures
        texts_esc_free(a + b),
{
    assert forall|j: int| 0 <= j < (a + b).len() implies esc_free(#[trigger] (a + b)[j].0) by {
        if j < a.len() {
            assert(esc_free(a[j].0));
        } else {
            assert(esc_free(b[j - a.len()].0));
        }
    }
}

proof fn lemma_line_head_esc_free(
    now: Seq<char>,
    level: u8,
    ctx: Seq<char>,
    palette: Option<(Color, Color)>,
)
    requires
        esc_free(now),
        esc_free(ctx),
    ensures
        texts_esc_free(line_head(now, level, ctx, palette)),
{
    lemma_zero_padded_esc_free(level as nat, 3);
    let h = line_head(now, level, ctx, palette);
    assert(esc_free(h[1].0));
    assert(esc_free(h[3].0));
}

proof fn lemma_numbered_lines_esc_free(
    now: Seq<char>,
    level: u8,
    ctx: Seq<char>,
    msg: Seq<char>,
    k: nat,
    palette: Option<(Color, Color)>,
)
    requires
        esc_free(now),
        esc_free(ctx),
        esc_free(msg),
        k <= line_count(msg),
    ensures
        texts_esc_free(numbered_lines(now, level, ctx, msg, k, palette)),
    decreases k,
{
    if k > 0 {
        let i = (k - 1) as nat;
        lemma_numbered_lines_esc_free(now, level, ctx, msg, i, palette);
        lemma_line_head_esc_free(now, level, ctx, palette);
        let n = line_count(msg);
        lemma_zero_padded_esc_free(i + 1, decimal_digits(n));
        lemma_decimal_esc_free(n);
        let label = counter_label(i + 1, n);
        assert forall|j: int| 0 <= j < label.len() implies #[trigger] label[j] != '\x1b' by {
            let z = zero_padded(i + 1, decimal_digits(n));
            if 1 <= j < 1 + z.len() {
                assert(label[j] == z[j - 1]);
            } else if 2 + z.len() <= j < label.len() - 1 {
                assert(label[j] == decimal(n)[j - 2 - z.len()]);
            }
        }
        let mid = seq![
            (seq![' '], None),
            (label, tint(palette, Color::BrightYellow)),
            (colon_space(), None),
        ];
        assert(texts_esc_free(mid)) by {
            assert(esc_free(mid[0].0));
            assert(esc_free(mid[1].0));
            assert(esc_free(mid[2].0));
        }
        let body: Seq<SegmentView> = if i + 1 == n && ends_with_newline(msg) {
            Seq::<SegmentView>::empty()
        } else {
            seq![(nth_line(msg, i as int), message_tint(palette))]
        };
        lemma_nth_line_esc_free(msg, i as int);
        assert(texts_esc_free(body)) by {
            if body.len() > 0 {
                assert(esc_free(body[0].0));
            }
        }
        let tail: Seq<SegmentView> = seq![(seq!['\n'], None)];
        assert(texts_esc_free(tail)) by {
            assert(esc_free(tail[0].0));
        }
        let head = line_head(now, level, ctx, palette);
        lemma_concat_esc_free(head, mid);
        lemma_concat_esc_free(head + mid, body);
        lemma_concat_esc_free(head + mid + body, tail);
        lemma_concat_esc_free(
            numbered_lines(now, level, ctx, msg, i, palette),
            numbered_line(now, level, ctx, msg, i, palette),
        );
    }
}

proof fn lemma_record_esc_free(
    now: Seq<char>,
    level: u8,
    ctx: Seq<char>,
    msg: Seq<char>,
    palette: Option<(Color, Color)>,
)
    requires
        esc_free(now),
        esc_free(ctx),
        esc_free(msg),
    ensures
        texts_esc_free(record_segments(now, level, ctx, msg, palette)),
{
    if line_count(msg) == 1 {
        lemma_line_head_esc_free(now, level, ctx, palette);
        let rest = seq![(colon_space(), None), (msg, message_tint(palette)), (seq!['\n'], None)];
        assert(texts_esc_free(rest)) by {
            assert(esc_free(rest[0].0));
            assert(esc_free(rest[1].0));
            assert(esc_free(rest[2].0));
        }
        lemma_concat_esc_free(line_head(now, level, ctx, palette), rest);
    } else {
        lemma_numbered_lines_esc_free(now, level, ctx, msg, line_count(msg), palette);
    }
}

/// Removing the escape sequences from a colorized record gives the plain
/// record, for a timestamp, context and message without escape characters:
/// colors only add escapes.
pub proof fn lemma_colorized_record_strips_to_plain(
    now: Seq<char>,
    level: u8,
    ctx: Seq<char>,
    msg: Seq<char>,
    palette: (Color, Color),
    out: Seq<char>,
)
    requires
        esc_free(now),
        esc_free(ctx),
        esc_free(msg),
        is_painting_of(record_segments(now, level, ctx, msg, Some(palette)), out),
    ensures
        strip_escapes(out) == plain_record(now, level, ctx, msg),
{
    let segs = record_segments(now, level, ctx, msg, Some(palette));
    let pieces = choose|pieces: Seq<Seq<char>>|
        pieces.len() == segs.len() && (forall|j: int|
            0 <= j < segs.len() ==> painting(segs[j].0, segs[j].1, #[trigger] pieces[j]))
            && out == concat_pieces(pieces);
    lemma_record_esc_free(now, level, ctx, msg, Some(palette));
    lemma_strip_pieces(segs, pieces, Seq::empty());
    assert(out + Seq::<char>::empty() =~= out);
    assert(segments_text(segs) + strip_escapes(Seq::<char>::empty()) =~= segments_text(segs));
    lemma_colors_keep_text(now, level, ctx, msg, Some(palette));
}

} // verus!

verus! {

proof fn lemma_digits_esc_free(d: Seq<char>, i: int)
    requires
        all_digits(d),
        0 <= i < d.len(),
    ensures
        d[i] != '\x1b',
{
    assert(is_digit(d[i]));
}

proof fn lemma_clock_esc_free(t: Seq<char>, k: int)
    requires
        clock_text(t),
        0 <= k < t.len(),
    ensures
        t[k] != '\x1b',
{
    if k < 2 {
        lemma_digits_esc_free(t.subrange(0, 2), k);
    } else if 3 <= k < 5 {
        lemma_digits_esc_free(t.subrange(3, 5), k - 3);
    } else if 6 <= k < 8 {
        lemma_digits_esc_free(t.subrange(6, 8), k - 6);
    } else if 9 <= k < 18 {
        lemma_digits_esc_free(t.subrange(9, 18), k - 9);
    } else if 19 <= k {
        lemma_digits_esc_free(t.subrange(19, 23), k - 19);
    }
}

/// A time stamp holds no escape character.
pub proof fn lemma_timestamp_esc_free(s: Seq<char>)
    requires
        timestamp_shape(s),
    ensures
        esc_free(s),
{
    let (dl, yl) = choose|day_len: int, year_len: int|
        {
            &&& 1 <= day_len <= 2
            &&& year_len >= 1
            &&& s.len() == 6 + day_len + year_len + 23
            &&& month_abbreviation(s.subrange(0, 3))
            &&& s[3] == ' '
            &&& all_digits(s.subrange(4, 4 + day_len))
            &&& s[4 + day_len] == ' '
            &&& #[trigger] year_text(s.subrange(5 + day_len, 5 + day_len + year_len))
            &&& s[5 + day_len + year_len] == ' '
            &&& clock_text(s.subrange(6 + day_len + year_len, s.len() as int))
        };
    assert forall|i: int| 0 <= i < s.len() implies #[trigger] s[i] != '\x1b' by {
        if i < 3 {
            assert(s[i] == s.subrange(0, 3)[i]);
        } else if 4 <= i < 4 + dl {
            lemma_digits_esc_free(s.subrange(4, 4 + dl), i - 4);
        } else if 5 + dl <= i < 5 + dl + yl {
            let y = s.subrange(5 + dl, 5 + dl + yl);
            assert(s[i] == y[i - 5 - dl]);
            if !all_digits(y) && i > 5 + dl {
                lemma_digits_esc_free(y.drop_first(), i - 6 - dl);
                assert(y.drop_first()[i - 6 - dl] == y[i - 5 - dl]);
            } else if all_digits(y) {
                lemma_digits_esc_free(y, i - 5 - dl);
            }
        } else if 6 + dl + yl <= i {
            let t = s.subrange(6 + dl + yl, s.len() as int);
            lemma_clock_esc_free(t, i - (6 + dl + yl));
            assert(s[i] == t[i - (6 + dl + yl)]);
        }
    }
}

} // verus!
