//! A text console of 25 rows of 80 characters drawn into the frame buffer.
use vstd::prelude::*;
use crate::framebuffer::FrameBufferConfig;
use crate::fonts::{FontTable, glyph_of, ascii_map};
use crate::graphics::{
    PixelColor, channels, fill, just, glyph_pixels, lemma_fill_union, lemma_fill_empty,
    write_pixel, write_ascii, draw_fits, check_draw,
};

verus! {

pub const N_COLUMN: usize = 80;
pub const N_ROW: usize = 25;

/// The console's cursor row, cursor column and the characters of its rows,
/// row after row.
pub type TextState = (int, int, Seq<char>);

/// The index of the character at `column` of `row` in the text.
pub open spec fn cell(row: int, column: int) -> int {
    80 * row + column
}

pub open spec fn text_state_wf(st: TextState) -> bool {
    &&& 0 <= st.0 < 25
    &&& 0 <= st.1 <= 80
    &&& st.2.len() == 2000
}

/// The frame buffer holds the top-left pixel `(632, 384)` of the last cell,
/// and with it the top-left pixel of every cell.
pub open spec fn cell_origins_fit(config: FrameBufferConfig) -> bool {
    config.pixel_fits(632, 384)
}

/// The pixel at the top-left corner of the cell at `column` of `row`.
pub open spec fn cell_origin(config: FrameBufferConfig, row: int, column: int) -> int {
    config.pixel_index(8 * column, 16 * row)
}

/// The pixels that clearing sets: the top-left pixel of each cell whose index
/// is below `n`.
pub open spec fn clear_pixels_upto(config: FrameBufferConfig, n: int) -> spec_fn(int) -> bool {
    |p: int|
        exists|i: int, j: int|
            0 <= i < 25 && 0 <= j < 80 && cell(i, j) < n && p == #[trigger] cell_origin(config, i, j)
}

/// The pixels that clearing the console sets.
pub open spec fn clear_pixels(config: FrameBufferConfig) -> spec_fn(int) -> bool {
    clear_pixels_upto(config, 2000)
}

/// Pixel `p` is set by the glyph of the character at `column` of `row`,
/// drawn one row higher.
pub open spec fn scroll_hit(
    config: FrameBufferConfig,
    font: FontTable,
    text: Seq<char>,
    row: int,
    column: int,
    p: int,
) -> bool {
    glyph_pixels(config, glyph_of(font, text[cell(row, column)]), 8 * column, 16 * (row - 1))(p)
}

/// The pixels set by redrawing rows 1 to 24 one row higher, among the
/// first `n` cells drawn.
pub open spec fn scroll_pixels_upto(
    config: FrameBufferConfig,
    font: FontTable,
    text: Seq<char>,
    n: int,
) -> spec_fn(int) -> bool {
    |p: int|
        exists|i: int, j: int|
            1 <= i < 25 && 0 <= j < 80 && cell(i - 1, j) < n && #[trigger] scroll_hit(
                config,
                font,
                text,
                i,
                j,
                p,
            )
}

pub open spec fn scroll_pixels(config: FrameBufferConfig, font: FontTable, text: Seq<char>) -> spec_fn(int) -> bool {
    scroll_pixels_upto(config, font, text, 1920)
}

/// The frame buffer after clearing the console with background `bg`.
pub open spec fn spec_clear(config: FrameBufferConfig, bg: PixelColor, fb: Seq<u8>) -> Seq<u8> {
    fill(fb, clear_pixels(config), channels(config.pixel_format, bg))
}

/// A line break: the cursor moves to the start of the next row; on the last
/// row the screen is cleared and rows 1 to 24 are drawn one row higher,
/// while the cursor row and the text stay as they were.
pub open spec fn spec_new_line(
    config: FrameBufferConfig,
    font: FontTable,
    fg: PixelColor,
    bg: PixelColor,
    st: TextState,
    fb: Seq<u8>,
) -> (TextState, Seq<u8>) {
    if st.0 < 24 {
        ((st.0 + 1, 0, st.2), fb)
    } else {
        (
            (st.0, 0, st.2),
            fill(spec_clear(config, bg, fb), scroll_pixels(config, font, st.2), channels(config.pixel_format, fg)),
        )
    }
}

/// One character: a line break for `'\n'`; otherwise, while the row has
/// room, the glyph is drawn at the cursor, stored in the text and the cursor
/// moves right; a character past the end of the row is dropped.
pub open spec fn spec_put_char(
    config: FrameBufferConfig,
    font: FontTable,
    fg: PixelColor,
    bg: PixelColor,
    st: TextState,
    fb: Seq<u8>,
    c: char,
) -> (TextState, Seq<u8>) {
    if c == '\n' {
        spec_new_line(config, font, fg, bg, st, fb)
    } else if st.1 < 80 {
        (
            (st.0, st.1 + 1, st.2.update(cell(st.0, st.1), c)),
            fill(fb, glyph_pixels(config, glyph_of(font, c), 8 * st.1, 16 * st.0), channels(config.pixel_format, fg)),
        )
    } else {
        (st, fb)
    }
}

/// The characters of `s`, one after the other.
pub open spec fn spec_put_string(
    config: FrameBufferConfig,
    font: FontTable,
    fg: PixelColor,
    bg: PixelColor,
    st: TextState,
    fb: Seq<u8>,
    s: Seq<char>,
) -> (TextState, Seq<u8>)
    decreases s.len(),
{
    if s.len() == 0 {
        (st, fb)
    } else {
        let (st1, fb1) = spec_put_string(config, font, fg, bg, st, fb, s.drop_last());
        spec_put_char(config, font, fg, bg, st1, fb1, s.last())
    }
}

/// The cursor and text after one character (see `spec_put_char`).
pub open spec fn spec_text_step(st: TextState, c: char) -> TextState {
    if c == '\n' {
        if st.0 < 24 {
            (st.0 + 1, 0, st.2)
        } else {
            (st.0, 0, st.2)
        }
    } else if st.1 < 80 {
        (st.0, st.1 + 1, st.2.update(cell(st.0, st.1), c))
    } else {
        st
    }
}

/// The cursor and text after the characters of `s`.
pub open spec fn spec_text_after(st: TextState, s: Seq<char>) -> TextState
    decreases s.len(),
{
    if s.len() == 0 {
        st
    } else {
        spec_text_step(spec_text_after(st, s.drop_last()), s.last())
    }
}

/// Clearing and redrawing rows 1 to 24 one row higher stays inside the
/// buffer, whose size then fits 32-bit arithmetic.
pub open spec fn scroll_fits(config: FrameBufferConfig, font: FontTable, text: Seq<char>) -> bool {
    &&& config.size_fits()
    &&& cell_origins_fit(config)
    &&& forall|i: int, j: int|
        1 <= i < 25 && 0 <= j < 80 ==> #[trigger] draw_fits(
            config,
            glyph_of(font, text[cell(i, j)]),
            8 * j,
            16 * (i - 1),
        )
}

/// What the character `c` draws in state `st` stays inside the buffer: a
/// line break on the last row scrolls; a character stored at the cursor
/// draws its glyph there; anything else draws nothing.
pub open spec fn char_fits(config: FrameBufferConfig, font: FontTable, st: TextState, c: char) -> bool {
    if c == '\n' {
        st.0 < 24 || scroll_fits(config, font, st.2)
    } else if st.1 < 80 {
        draw_fits(config, glyph_of(font, c), 8 * st.1, 16 * st.0)
    } else {
        true
    }
}

/// Everything writing `s` from state `st` draws stays inside the buffer.
pub open spec fn put_string_fits(config: FrameBufferConfig, font: FontTable, st: TextState, s: Seq<char>) -> bool
    decreases s.len(),
{
    s.len() == 0 || (put_string_fits(config, font, st, s.drop_last()) && char_fits(
        config,
        font,
        spec_text_after(st, s.drop_last()),
        s.last(),
    ))
}

/// The cursor and text that `spec_put_string` reaches do not depend on the
/// buffer.
pub proof fn lemma_text_after(
    config: FrameBufferConfig,
    font: FontTable,
    fg: PixelColor,
    bg: PixelColor,
    st: TextState,
    fb: Seq<u8>,
    s: Seq<char>,
)
    ensures
        spec_put_string(config, font, fg, bg, st, fb, s).0 == spec_text_after(st, s),
    decreases s.len(),
{
    if s.len() > 0 {
        lemma_text_after(config, font, fg, bg, st, fb, s.drop_last());
    }
}

/// What fits for a string fits for each of its beginnings.
pub proof fn lemma_put_string_fits_prefix(config: FrameBufferConfig, font: FontTable, st: TextState, s: Seq<char>, i: int)
    requires
        put_string_fits(config, font, st, s),
        0 <= i <= s.len(),
    ensures
        put_string_fits(config, font, st, s.take(i)),
    decreases s.len(),
{
    if i == s.len() {
        assert(s.take(i) =~= s);
    } else {
        assert(s.drop_last().take(i) =~= s.take(i));
        lemma_put_string_fits_prefix(config, font, st, s.drop_last(), i);
    }
}

/// A pixel above and to the left of one inside the buffer is inside too.
pub proof fn lemma_pixel_fits_below(config: FrameBufferConfig, xmax: int, ymax: int, x: int, y: int)
    requires
        config.pixel_fits(xmax, ymax),
        0 <= x <= xmax,
        0 <= y <= ymax,
    ensures
        config.pixel_fits(x, y),
{
    let w = config.pixels_per_scan_line as int;
    assert(w * y <= w * ymax) by (nonlinear_arith)
        requires 0 <= y <= ymax, 0 <= w;
}

pub struct Console {
    fg_color: PixelColor,
    bg_color: PixelColor,
    cur_row: usize,
    cur_column: usize,
    buf: [char; 2000],
}

impl Console {
    pub closed spec fn fg(&self) -> PixelColor {
        self.fg_color
    }

    pub closed spec fn bg(&self) -> PixelColor {
        self.bg_color
    }

    /// The cursor and the text.
    pub closed spec fn state(&self) -> TextState {
        (self.cur_row as int, self.cur_column as int, self.buf@)
    }

    pub open spec fn wf(&self) -> bool {
        text_state_wf(self.state())
    }

    /// An empty console with its cursor at the top-left cell.
    pub fn new(fg_color: PixelColor, bg_color: PixelColor) -> (r: Self)
        ensures
            r.wf(),
            r.fg() == fg_color,
            r.bg() == bg_color,
            r.state() == (0int, 0int, Seq::new(2000, |i: int| ' ')),
    {
        let r = Console { fg_color, bg_color, cur_row: 0, cur_column: 0, buf: [' '; 2000] };
        assert(r.buf@ =~= Seq::new(2000, |i: int| ' '));
        r
    }

    /// Sets the top-left pixel of every cell to the background colour.
    pub fn clear(&mut self, config: &FrameBufferConfig, fb: &mut [u8])
        requires
            config.describes(old(fb)@),
            cell_origins_fit(*config),
        ensures
            *final(self) == *old(self),
            final(fb)@ == spec_clear(*config, old(self).bg(), old(fb)@),
    {
        let ghost ch = channels(config.pixel_format, self.bg_color);
        proof {
            lemma_fill_empty(old(fb)@, clear_pixels_upto(*config, 0), ch);
        }
        for i in 0..N_ROW
            invariant
                config.describes(fb@),
                cell_origins_fit(*config),
                ch == channels(config.pixel_format, self.bg_color),
                fb@ == fill(old(fb)@, clear_pixels_upto(*config, 80 * i), ch),
        {
            for j in 0..N_COLUMN
                invariant
                    i < 25,
                    config.describes(fb@),
                    cell_origins_fit(*config),
                    ch == channels(config.pixel_format, self.bg_color),
                    fb@ == fill(old(fb)@, clear_pixels_upto(*config, 80 * i + j), ch),
            {
                let ghost n = 80 * i + j;
                let ghost p0 = cell_origin(*config, i as int, j as int);
                let ghost before = clear_pixels_upto(*config, n);
                let ghost after = clear_pixels_upto(*config, n + 1);
                proof {
                    lemma_pixel_fits_below(*config, 632, 384, 8 * j as int, 16 * i as int);
                }
                write_pixel(config, fb, 8 * j as u32, 16 * i as u32, self.bg_color);
                proof {
                    assert forall|p: int| #[trigger] after(p) == (before(p) || just(p0)(p)) by {
                        if p == p0 {
                            assert(cell(i as int, j as int) == n);
                        }
                        if after(p) {
                            let (a, b) = choose|a: int, b: int|
                                0 <= a < 25 && 0 <= b < 80 && cell(a, b) < n + 1 && p == #[trigger] cell_origin(*config, a, b);
                            if cell(a, b) == n {
                                assert(a == i && b == j);
                            }
                        }
                    }
                    lemma_fill_union(old(fb)@, before, just(p0), after, ch);
                }
            }
        }
    }

    /// Whether clearing and redrawing `text` one row higher stays inside the
    /// buffer (see `scroll_fits`).
    fn check_scroll(config: &FrameBufferConfig, font: &FontTable, text: &[char; 2000]) -> (r: bool)
        ensures
            r == scroll_fits(*config, *font, text@),
    {
        if !config.check_size() || !config.check_pixel(632, 384) {
            return false;
        }
        for i in 1..N_ROW
            invariant
                forall|a: int, b: int|
                    1 <= a < i && 0 <= b < 80 ==> #[trigger] draw_fits(
                        *config,
                        glyph_of(*font, text@[cell(a, b)]),
                        8 * b,
                        16 * (a - 1),
                    ),
        {
            for j in 0..N_COLUMN
                invariant
                    1 <= i < 25,
                    forall|a: int, b: int|
                        1 <= a < i && 0 <= b < 80 ==> #[trigger] draw_fits(
                            *config,
                            glyph_of(*font, text@[cell(a, b)]),
                            8 * b,
                            16 * (a - 1),
                        ),
                    forall|b: int|
                        0 <= b < j ==> #[trigger] draw_fits(
                            *config,
                            glyph_of(*font, text@[cell(i as int, b)]),
                            8 * b,
                            16 * (i - 1),
                        ),
            {
                let c = text[N_COLUMN * i + j];
                let glyph = ascii_map(font, c);
                if !check_draw(config, glyph, 8 * j as u32, 16 * (i - 1) as u32) {
                    assert(!draw_fits(*config, glyph_of(*font, text@[cell(i as int, j as int)]), 8 * j as int, 16 * (i as int - 1)));
                    return false;
                }
            }
        }
        true
    }

    /// Whether everything writing `s` at the cursor draws stays inside the
    /// buffer (see `put_string_fits`).
    pub fn check_put_string(&self, config: &FrameBufferConfig, font: &FontTable, s: &str) -> (r: bool)
        requires
            self.wf(),
        ensures
            r == put_string_fits(*config, *font, self.state(), s@),
    {
        broadcast use vstd::string::axiom_spec_iter;
        let ghost st0 = self.state();
        let mut row = self.cur_row;
        let mut col = self.cur_column;
        let mut text = self.buf;
        for c in it: s.chars()
            invariant
                st0 == self.state(),
                text_state_wf(st0),
                it.seq() == s@,
                row < 25,
                col <= 80,
                (row as int, col as int, text@) == spec_text_after(st0, s@.take(it.index())),
                put_string_fits(*config, *font, st0, s@.take(it.index())),
        {
            let ghost i = it.index();
            assert(s@.take(i + 1).drop_last() =~= s@.take(i));
            assert(s@.take(i + 1).last() == c);
            let ok = if c == '\n' {
                row < N_ROW - 1 || Self::check_scroll(config, font, &text)
            } else if col < N_COLUMN {
                let glyph = ascii_map(font, c);
                check_draw(config, glyph, 8 * col as u32, 16 * row as u32)
            } else {
                true
            };
            if !ok {
                proof {
                    if put_string_fits(*config, *font, st0, s@) {
                        lemma_put_string_fits_prefix(*config, *font, st0, s@, i + 1);
                    }
                }
                return false;
            }
            if c == '\n' {
                if row < N_ROW - 1 {
                    row = row + 1;
                }
                col = 0;
            } else if col < N_COLUMN {
                text[N_COLUMN * row + col] = c;
                col = col + 1;
            }
        }
        assert(s@.take(s@.len() as int) =~= s@);
        true
    }

    fn new_line(&mut self, config: &FrameBufferConfig, fb: &mut [u8], font: &FontTable)
        requires
            old(self).wf(),
            config.holds(old(fb)@),
            char_fits(*config, *font, old(self).state(), '\n'),
        ensures
            final(self).wf(),
            final(self).fg() == old(self).fg(),
            final(self).bg() == old(self).bg(),
            (final(self).state(), final(fb)@) == spec_new_line(
                *config, *font, old(self).fg(), old(self).bg(), old(self).state(), old(fb)@),
    {
        if self.cur_row < N_ROW - 1 {
            self.cur_row = self.cur_row + 1;
            self.cur_column = 0;
        } else {
            self.clear(config, fb);
            let ghost cleared = fb@;
            let ghost text = self.buf@;
            let ghost ch = channels(config.pixel_format, self.fg_color);
            proof {
                lemma_fill_empty(cleared, scroll_pixels_upto(*config, *font, text, 0), ch);
            }
            for i in 1..N_ROW
                invariant
                    self.wf(),
                    self.buf@ == text,
                    config.holds(fb@),
                    scroll_fits(*config, *font, text),
                    ch == channels(config.pixel_format, self.fg_color),
                    fb@ == fill(cleared, scroll_pixels_upto(*config, *font, text, 80 * (i - 1)), ch),
            {
                for j in 0..N_COLUMN
                    invariant
                        1 <= i < 25,
                        self.wf(),
                        self.buf@ == text,
                        config.holds(fb@),
                        scroll_fits(*config, *font, text),
                        ch == channels(config.pixel_format, self.fg_color),
                        fb@ == fill(cleared, scroll_pixels_upto(*config, *font, text, 80 * (i - 1) + j), ch),
                {
                    let ghost n = 80 * (i - 1) + j;
                    let ghost before = scroll_pixels_upto(*config, *font, text, n);
                    let ghost after = scroll_pixels_upto(*config, *font, text, n + 1);
                    let c = self.buf[N_COLUMN * i + j];
                    let ghost glyph = glyph_pixels(*config, glyph_of(*font, c), 8 * j as int, 16 * (i - 1) as int);
                    proof {
                        assert(c == text[cell(i as int, j as int)]);
                        assert(draw_fits(*config, glyph_of(*font, text[cell(i as int, j as int)]), 8 * j as int, 16 * (i as int - 1)));
                    }
                    write_ascii(config, fb, font, c, 8 * j as u32, 16 * (i - 1) as u32, self.fg_color);
                    proof {
                        assert forall|p: int| #[trigger] after(p) == (before(p) || glyph(p)) by {
                            if glyph(p) {
                                assert(scroll_hit(*config, *font, text, i as int, j as int, p));
                            }
                            if after(p) {
                                let (a, b) = choose|a: int, b: int|
                                    1 <= a < 25 && 0 <= b < 80 && cell(a - 1, b) < n + 1 && #[trigger] scroll_hit(
                                        *config, *font, text, a, b, p);
                                if cell(a - 1, b) == n {
                                    assert(a == i && b == j);
                                }
                            }
                        }
                        lemma_fill_union(cleared, before, glyph, after, ch);
                    }
                }
            }
            self.cur_column = 0;
        }
    }

    /// Writes `s` at the cursor: see `spec_put_char` for what each character
    /// does to the cursor, the text and the frame buffer.
    pub fn put_string(&mut self, config: &FrameBufferConfig, fb: &mut [u8], font: &FontTable, s: &str)
        requires
            old(self).wf(),
            config.holds(old(fb)@),
            put_string_fits(*config, *font, old(self).state(), s@),
        ensures
            final(self).wf(),
            final(self).fg() == old(self).fg(),
            final(self).bg() == old(self).bg(),
            (final(self).state(), final(fb)@) == spec_put_string(
                *config, *font, old(self).fg(), old(self).bg(), old(self).state(), old(fb)@, s@),
    {
        broadcast use vstd::string::axiom_spec_iter;
        let ghost fg = self.fg_color;
        let ghost bg = self.bg_color;
        for c in it: s.chars()
            invariant
                self.wf(),
                self.fg() == fg,
                self.bg() == bg,
                config.holds(fb@),
                put_string_fits(*config, *font, old(self).state(), s@),
                it.seq() == s@,
                (self.state(), fb@) == spec_put_string(
                    *config, *font, fg, bg, old(self).state(), old(fb)@, s@.take(it.index())),
        {
            assert(s@.take(it.index() + 1).drop_last() =~= s@.take(it.index()));
            proof {
                lemma_put_string_fits_prefix(*config, *font, old(self).state(), s@, it.index() + 1);
                lemma_text_after(*config, *font, fg, bg, old(self).state(), old(fb)@, s@.take(it.index()));
                assert(s@.take(it.index() + 1).last() == c);
            }
            if c == '\n' {
                self.new_line(config, fb, font);
            } else if self.cur_column < N_COLUMN {
                write_ascii(
                    config,
                    fb,
                    font,
                    c,
                    8 * self.cur_column as u32,
                    16 * self.cur_row as u32,
                    self.fg_color,
                );
                self.buf[N_COLUMN * self.cur_row + self.cur_column] = c;
                self.cur_column = self.cur_column + 1;
            }
        }
        assert(s@.take(s@.len() as int) =~= s@);
    }
}

} // verus!

verus! {

/// Writing `a` and then `b` is writing `a + b`.
pub proof fn lemma_put_string_append(
    config: FrameBufferConfig,
    font: FontTable,
    fg: PixelColor,
    bg: PixelColor,
    st: TextState,
    fb: Seq<u8>,
    a: Seq<char>,
    b: Seq<char>,
)
    ensures
        spec_put_string(config, font, fg, bg, st, fb, a + b) == ({
            let (st1, fb1) = spec_put_string(config, font, fg, bg, st, fb, a);
            spec_put_string(config, font, fg, bg, st1, fb1, b)
        }),
    decreases b.len(),
{
    if b.len() == 0 {
        assert(a + b =~= a);
    } else {
        assert((a + b).drop_last() =~= a + b.drop_last());
        assert((a + b).last() == b.last());
        lemma_put_string_append(config, font, fg, bg, st, fb, a, b.drop_last());
    }
}

/// Every character keeps the cursor on the screen and the text's size.
pub proof fn lemma_put_string_wf(
    config: FrameBufferConfig,
    font: FontTable,
    fg: PixelColor,
    bg: PixelColor,
    st: TextState,
    fb: Seq<u8>,
    s: Seq<char>,
)
    requires
        text_state_wf(st),
    ensures
        text_state_wf(spec_put_string(config, font, fg, bg, st, fb, s).0),
    decreases s.len(),
{
    if s.len() > 0 {
        lemma_put_string_wf(config, font, fg, bg, st, fb, s.drop_last());
    }
}

/// Without line breaks the cursor stays on its row and moves right by the
/// number of characters, up to the end of the row; the characters that fit
/// land in the row's cells from the cursor on, and every other cell keeps
/// its character.
pub proof fn lemma_put_string_one_row(
    config: FrameBufferConfig,
    font: FontTable,
    fg: PixelColor,
    bg: PixelColor,
    st: TextState,
    fb: Seq<u8>,
    s: Seq<char>,
)
    requires
        text_state_wf(st),
        !s.contains('\n'),
    ensures
        ({
            let r = spec_put_string(config, font, fg, bg, st, fb, s).0;
            let end = if st.1 + s.len() < 80 { st.1 + s.len() } else { 80 };
            &&& r.0 == st.0
            &&& r.1 == end
            &&& forall|k: int| 0 <= k < end - st.1 ==> r.2[#[trigger] cell(st.0, st.1 + k)] == s[k]
            &&& forall|i: int|
                0 <= i < 2000 && !(cell(st.0, st.1) <= i < cell(st.0, end)) ==> r.2[i] == st.2[i]
        }),
    decreases s.len(),
{
    if s.len() > 0 {
        let s0 = s.drop_last();
        assert forall|k: int| 0 <= k < s0.len() implies s0[k] != '\n' by {
            assert(s0[k] == s[k]);
        }
        assert(!s0.contains('\n'));
        lemma_put_string_one_row(config, font, fg, bg, st, fb, s0);
        lemma_put_string_wf(config, font, fg, bg, st, fb, s0);
        assert(s.last() == s[s.len() - 1]);
        assert(s.last() != '\n');
        let r0 = spec_put_string(config, font, fg, bg, st, fb, s0).0;
        let r = spec_put_string(config, font, fg, bg, st, fb, s).0;
        let end0 = if st.1 + s0.len() < 80 { st.1 + s0.len() } else { 80 };
        let end = if st.1 + s.len() < 80 { st.1 + s.len() } else { 80 };
        assert forall|k: int| 0 <= k < end - st.1 implies r.2[#[trigger] cell(st.0, st.1 + k)] == s[k] by {
            if k < end0 - st.1 {
                assert(s0[k] == s[k]);
                assert(cell(st.0, st.1 + k) != cell(r0.0, r0.1));
            } else {
                assert(k == s0.len());
                assert(r0.1 == st.1 + k);
            }
        }
    }
}

} // verus!

verus! {

/// Clearing twice is clearing once.
pub proof fn lemma_clear_idempotent(config: FrameBufferConfig, bg: PixelColor, fb: Seq<u8>)
    ensures
        spec_clear(config, bg, spec_clear(config, bg, fb)) == spec_clear(config, bg, fb),
{
    let a = clear_pixels(config);
    lemma_fill_union(fb, a, a, a, channels(config.pixel_format, bg));
}

} // verus!
