//! The bitmap font: one 8x16 glyph per byte value.
use vstd::prelude::*;

verus! {

/// Sixteen rows of eight pixels for each of the 256 byte values; bit 7 of a
/// row is its leftmost pixel.
pub type FontTable = [[u8; 16]; 256];

/// The byte value that selects the glyph of `c`: its code point's low byte.
pub open spec fn glyph_index(c: char) -> int {
    (c as u32 as int) % 256
}

/// The glyph of `c`.
pub open spec fn glyph_of(font: FontTable, c: char) -> Seq<u8> {
    font@[glyph_index(c)]@
}

/// The glyph that `font` draws for `x`.
pub fn ascii_map(font: &FontTable, x: char) -> (r: &[u8; 16])
    ensures
        r@ == glyph_of(*font, x),
        r@ == font@[(x as u32 % 256) as int]@,
{
    let code = x as u32;
    let ascii_code = code as u8;
    assert(ascii_code == code % 256) by (bit_vector)
        requires ascii_code == code as u8;
    &font[ascii_code as usize]
}

/// The index just past the line that starts at `i`: past its `'\n'`, or
/// the end of the text.
pub open spec fn line_end(t: Seq<char>, i: int) -> int
    decreases t.len() - i,
{
    if i < 0 || i >= t.len() {
        t.len() as int
    } else if t[i] == '\n' {
        i + 1
    } else {
        line_end(t, i + 1)
    }
}

pub proof fn lemma_line_end_bounds(t: Seq<char>, i: int)
    requires
        0 <= i <= t.len(),
    ensures
        i <= line_end(t, i) <= t.len(),
        i < t.len() ==> i < line_end(t, i),
    decreases t.len() - i,
{
    if i < t.len() && t[i] != '\n' {
        lemma_line_end_bounds(t, i + 1);
    }
}

/// The line that starts at `i`, with its `'\n'` when it has one.
pub open spec fn line_at(t: Seq<char>, i: int) -> Seq<char> {
    t.subrange(i, line_end(t, i))
}

/// `char 0x`, which starts a glyph's header line.
pub open spec fn header_pattern() -> Seq<char> {
    seq!['c', 'h', 'a', 'r', ' ', '0', 'x']
}

/// `char 0x` stands at `k` in `l`, followed by a character of the line.
pub open spec fn header_at(l: Seq<char>, k: int) -> bool {
    &&& 0 <= k
    &&& k + 8 <= l.len()
    &&& l.subrange(k, k + 7) == header_pattern()
    &&& l[k + 7] != '\n'
}

/// The line holds `char 0x` followed by at least one more character of the
/// line.
pub open spec fn is_header_line(l: Seq<char>) -> bool {
    exists|k: int| #[trigger] header_at(l, k)
}

/// Where the `k`-th line after position `p` starts.
pub open spec fn row_start(t: Seq<char>, p: int, k: nat) -> int
    decreases k,
{
    if k == 0 {
        p
    } else {
        line_end(t, row_start(t, p, (k - 1) as nat))
    }
}

pub proof fn lemma_row_start_bounds(t: Seq<char>, p: int, k: nat)
    requires
        0 <= p <= t.len(),
    ensures
        p <= row_start(t, p, k) <= t.len(),
    decreases k,
{
    if k > 0 {
        lemma_row_start_bounds(t, p, (k - 1) as nat);
        lemma_line_end_bounds(t, row_start(t, p, (k - 1) as nat));
    }
}

/// The sixteen lines after position `p`, the rows of a glyph from top to
/// bottom; a line past the end of the text is empty.
pub open spec fn glyph_lines(t: Seq<char>, p: int) -> Seq<Seq<char>> {
    Seq::new(16, |k: int| line_at(t, row_start(t, p, k as nat)))
}

/// Every row line has at least eight characters.
pub open spec fn glyph_lines_ok(t: Seq<char>, p: int) -> bool {
    forall|k: int| 0 <= k < 16 ==> (#[trigger] glyph_lines(t, p)[k]).len() >= 8
}

/// The row lines of the glyphs of a text font from position `i` on: each
/// header line is followed by the sixteen row lines of its glyph, and other
/// lines are skipped; `None` where a row line is shorter than eight
/// characters or the text ends within a glyph.
pub open spec fn font_lines(t: Seq<char>, i: int) -> Option<Seq<Seq<Seq<char>>>>
    decreases t.len() - i,
{
    if i < 0 || i >= t.len() {
        Some(Seq::empty())
    } else {
        let e = line_end(t, i);
        proof {
            lemma_line_end_bounds(t, i);
            lemma_row_start_bounds(t, e, 16);
        }
        if is_header_line(line_at(t, i)) {
            if !glyph_lines_ok(t, e) {
                None
            } else {
                match font_lines(t, row_start(t, e, 16)) {
                    None => None,
                    Some(g) => Some(seq![glyph_lines(t, e)] + g),
                }
            }
        } else {
            font_lines(t, e)
        }
    }
}

/// Pixel `j` of a row is set exactly when character `j` of its line is `*`.
pub open spec fn row_matches(row: u8, line: Seq<char>) -> bool {
    forall|j: int| 0 <= j < 8 ==> (#[trigger] (row & (0x80u8 >> (j as u8))) != 0) == (line[j] == '*')
}

/// `gl` put in front of the glyphs of `r`.
pub open spec fn prepend_lines(
    gl: Seq<Seq<Seq<char>>>,
    r: Option<Seq<Seq<Seq<char>>>>,
) -> Option<Seq<Seq<Seq<char>>>> {
    match r {
        None => None,
        Some(x) => Some(gl + x),
    }
}

proof fn lemma_set_row_bit(x: u8, a: u8, b: u8)
    requires
        a < 8,
        b < 8,
    ensures
        ((x | (0x80u8 >> a)) & (0x80u8 >> b) != 0) == ((x & (0x80u8 >> b) != 0) || a == b),
{
    assert(((x | (0x80u8 >> a)) & (0x80u8 >> b) != 0) == ((x & (0x80u8 >> b) != 0) || a == b))
        by (bit_vector)
        requires
            a < 8u8,
            b < 8u8;
}

fn find_line_end(t: &Vec<char>, i: usize) -> (e: usize)
    requires
        i <= t@.len(),
    ensures
        e == line_end(t@, i as int),
{
    let mut j = i;
    while j < t.len() && t[j] != '\n'
        invariant
            i <= j <= t@.len(),
            line_end(t@, j as int) == line_end(t@, i as int),
        decreases t@.len() - j,
    {
        j = j + 1;
    }
    if j < t.len() {
        j + 1
    } else {
        j
    }
}

fn line_is_header(t: &Vec<char>, i: usize, e: usize) -> (r: bool)
    requires
        i <= e <= t@.len(),
        e == line_end(t@, i as int),
    ensures
        r == is_header_line(line_at(t@, i as int)),
{
    let ghost l = line_at(t@, i as int);
    let ghost pat = header_pattern();
    assert(pat[0] == 'c' && pat[1] == 'h' && pat[2] == 'a' && pat[3] == 'r' && pat[4] == ' '
        && pat[5] == '0' && pat[6] == 'x');
    let mut k: usize = 0;
    while e - i >= 8 && k <= e - i - 8
        invariant
            i <= e <= t@.len(),
            e == line_end(t@, i as int),
            l == line_at(t@, i as int),
            l == t@.subrange(i as int, e as int),
            pat == header_pattern(),
            forall|k2: int| 0 <= k2 < k ==> !#[trigger] header_at(l, k2),
        decreases e - i - k,
    {
        let b = i + k;
        if t[b] == 'c' && t[b + 1] == 'h' && t[b + 2] == 'a' && t[b + 3] == 'r' && t[b + 4] == ' '
            && t[b + 5] == '0' && t[b + 6] == 'x' && t[b + 7] != '\n' {
            assert(l.subrange(k as int, k + 7) =~= pat);
            assert(header_at(l, k as int));
            return true;
        }
        proof {
            if header_at(l, k as int) {
                assert forall|m: int| 0 <= m < 7 implies t@[b + m] == pat[m] by {
                    assert(l.subrange(k as int, k + 7)[m] == pat[m]);
                }
            }
        }
        k = k + 1;
    }
    assert forall|k2: int| !#[trigger] header_at(l, k2) by {}
    false
}

fn row_bits(t: &Vec<char>, p: usize) -> (x: u8)
    requires
        p + 8 <= t@.len(),
    ensures
        forall|j: int| 0 <= j < 8 ==> (#[trigger] (x & (0x80u8 >> (j as u8))) != 0) == (t@[p + j] == '*'),
{
    let mut x: u8 = 0;
    let len = t.len();
    assert(forall|m: u8| (0u8 & m) == 0) by (bit_vector);
    for j in 0..8usize
        invariant
            p + 8 <= t@.len(),
            len == t@.len(),
            forall|j2: int| 0 <= j2 < j ==> (#[trigger] (x & (0x80u8 >> (j2 as u8))) != 0) == (t@[p + j2] == '*'),
            forall|j2: int| j <= j2 < 8 ==> #[trigger] (x & (0x80u8 >> (j2 as u8))) == 0,
    {
        if t[p + j] == '*' {
            let ghost old_x = x;
            x = x | (0x80u8 >> (j as u8));
            assert forall|j2: int| 0 <= j2 < 8 implies (#[trigger] (x & (0x80u8 >> (j2 as u8))) != 0)
                == ((old_x & (0x80u8 >> (j2 as u8)) != 0) || j2 == j) by {
                lemma_set_row_bit(old_x, j as u8, j2 as u8);
            }
        }
    }
    x
}

/// Reads a text font: each line holding `char 0x` and at least one more
/// character starts a glyph, whose sixteen rows are the next sixteen lines,
/// `*` marking a set pixel among a row's first eight characters; other lines
/// are skipped. `None` where a row line is shorter than eight characters,
/// the text ends within a glyph, or the text does not hold exactly 256
/// glyphs.
pub fn font_from_text(text: &str) -> (r: Option<FontTable>)
    ensures
        r is Some <==> (font_lines(text@, 0) matches Some(g) && g.len() == 256),
        r matches Some(table) ==> forall|c: int, row: int|
            0 <= c < 256 && 0 <= row < 16 ==> row_matches(
                #[trigger] table@[c]@[row],
                font_lines(text@, 0)->0[c][row],
            ),
{
    broadcast use vstd::string::axiom_spec_iter;
    let mut t: Vec<char> = Vec::new();
    for c in it: text.chars()
        invariant
            it.seq() == text@,
            t@ == text@.take(it.index()),
    {
        t.push(c);
        assert(t@ =~= text@.take(it.index() + 1));
    }
    assert(t@ =~= text@);
    let n = t.len();
    let mut glyphs: Vec<[u8; 16]> = Vec::new();
    let ghost mut gl: Seq<Seq<Seq<char>>> = Seq::empty();
    assert(gl + Seq::<Seq<Seq<char>>>::empty() =~= gl);
    let mut i: usize = 0;
    while i < n
        invariant
            t@ == text@,
            n == t@.len(),
            i <= n,
            glyphs@.len() == gl.len(),
            forall|c: int, row: int|
                0 <= c < gl.len() && 0 <= row < 16 ==> row_matches(#[trigger] glyphs@[c]@[row], gl[c][row]),
            font_lines(text@, 0) == prepend_lines(gl, font_lines(text@, i as int)),
        decreases n - i,
    {
        let e = find_line_end(&t, i);
        proof {
            lemma_line_end_bounds(t@, i as int);
        }
        if line_is_header(&t, i, e) {
            let mut g = [0u8; 16];
            let mut p = e;
            for r in 0..16usize
                invariant
                    t@ == text@,
                    n == t@.len(),
                    i < e <= n,
                    e == line_end(t@, i as int),
                    is_header_line(line_at(t@, i as int)),
                    glyphs@.len() == gl.len(),
                    forall|c: int, row: int|
                        0 <= c < gl.len() && 0 <= row < 16 ==> row_matches(#[trigger] glyphs@[c]@[row], gl[c][row]),
                    font_lines(text@, 0) == prepend_lines(gl, font_lines(text@, i as int)),
                    p == row_start(t@, e as int, r as nat),
                    e <= p <= n,
                    forall|k: int| 0 <= k < r ==> (#[trigger] glyph_lines(t@, e as int)[k]).len() >= 8,
                    forall|k: int| 0 <= k < r ==> row_matches(#[trigger] g@[k], glyph_lines(t@, e as int)[k]),
            {
                let q = find_line_end(&t, p);
                proof {
                    lemma_line_end_bounds(t@, p as int);
                    assert(glyph_lines(t@, e as int)[r as int] == line_at(t@, p as int));
                }
                if q - p < 8 {
                    proof {
                        assert(!glyph_lines_ok(t@, e as int));
                        assert(font_lines(text@, i as int) is None);
                    }
                    return None;
                }
                let x = row_bits(&t, p);
                proof {
                    let l = line_at(t@, p as int);
                    assert forall|j: int| 0 <= j < 8 implies (#[trigger] (x & (0x80u8 >> (j as u8))) != 0) == (l[j] == '*') by {
                        assert(l[j] == t@[p + j]);
                    }
                }
                g[r] = x;
                p = q;
                proof {
                    assert(row_start(t@, e as int, (r + 1) as nat) == line_end(t@, row_start(t@, e as int, r as nat)));
                }
            }
            proof {
                let ng = glyph_lines(t@, e as int);
                assert(glyph_lines_ok(t@, e as int));
                match font_lines(text@, p as int) {
                    None => {},
                    Some(rest) => {
                        assert(gl + (seq![ng] + rest) =~= gl.push(ng) + rest);
                    },
                }
                gl = gl.push(ng);
            }
            glyphs.push(g);
            i = p;
        } else {
            i = e;
        }
    }
    assert(gl + Seq::<Seq<Seq<char>>>::empty() =~= gl);
    if glyphs.len() != 256 {
        return None;
    }
    let mut table: FontTable = [[0u8; 16]; 256];
    for c in 0..256usize
        invariant
            glyphs@.len() == 256,
            forall|k: int| 0 <= k < c ==> #[trigger] table@[k] == glyphs@[k],
    {
        table[c] = glyphs[c];
    }
    Some(table)
}

} // verus!

verus! {

/// Two characters whose code points share their low byte have the same
/// glyph, so drawing either writes the same pixels (see `write_ascii`).
pub proof fn lemma_same_low_byte_same_glyph(font: FontTable, c1: char, c2: char)
    requires
        (c1 as u32) % 256 == (c2 as u32) % 256,
    ensures
        glyph_of(font, c1) == glyph_of(font, c2),
{
}

} // verus!

verus! {

/// The glyph of a character is the font's entry for the low byte of its code
/// point, for every byte value: `'7'` (0x37) takes entry 0x37, `'A'` and
/// `'\u{141}'` both take entry 0x41.
pub proof fn lemma_glyph_is_low_byte_entry(font: FontTable, c: char)
    ensures
        glyph_of(font, c) == font@[(c as u32 % 256) as int]@,
        0 <= (c as u32 % 256) < 256,
{
}

} // verus!

verus! {

/// Character `o` of glyph block `b`: the header line `char 0x` followed by
/// the two characters `hs[b]` and a line break, then the sixteen row lines
/// `rows[b][r]`, eight characters each, every one ended by a line break.
pub open spec fn block_char(hs: Seq<(char, char)>, rows: Seq<Seq<Seq<char>>>, b: int, o: int) -> char {
    if o < 7 {
        header_pattern()[o]
    } else if o == 7 {
        hs[b].0
    } else if o == 8 {
        hs[b].1
    } else if o == 9 {
        '\n'
    } else if (o - 10) % 9 < 8 {
        rows[b][(o - 10) / 9][(o - 10) % 9]
    } else {
        '\n'
    }
}

/// The text of `hs.len()` glyph blocks written back to back, 154 characters
/// each, with nothing between them.
pub open spec fn blocks_text(hs: Seq<(char, char)>, rows: Seq<Seq<Seq<char>>>) -> Seq<char> {
    Seq::new((154 * hs.len()) as nat, |i: int| block_char(hs, rows, i / 154, i % 154))
}

/// No header character after `0x` is a line break, and every glyph has
/// sixteen rows of eight characters none of which is a line break.
pub open spec fn blocks_ok(hs: Seq<(char, char)>, rows: Seq<Seq<Seq<char>>>) -> bool {
    &&& rows.len() == hs.len()
    &&& forall|b: int| 0 <= b < hs.len() ==> (#[trigger] hs[b]).0 != '\n' && hs[b].1 != '\n'
    &&& forall|b: int| 0 <= b < hs.len() ==> (#[trigger] rows[b]).len() == 16
    &&& forall|b: int, r: int| 0 <= b < hs.len() && 0 <= r < 16 ==> (#[trigger] rows[b][r]).len() == 8
    &&& forall|b: int, r: int, c: int|
        0 <= b < hs.len() && 0 <= r < 16 && 0 <= c < 8 ==> #[trigger] rows[b][r][c] != '\n'
}

proof fn lemma_line_end_run(t: Seq<char>, i: int, m: int)
    requires
        0 <= i <= m < t.len(),
        forall|j: int| i <= j < m ==> t[j] != '\n',
        t[m] == '\n',
    ensures
        line_end(t, i) == m + 1,
    decreases m - i,
{
    if i < m {
        lemma_line_end_run(t, i + 1, m);
    }
}

proof fn lemma_div_mod(x: int, d: int, q: int, r: int)
    requires
        0 < d,
        0 <= r < d,
        x == q * d + r,
    ensures
        x / d == q,
        x % d == r,
{
    vstd::arithmetic::div_mod::lemma_fundamental_div_mod_converse(x, d, q, r);
}

proof fn lemma_blocks_char(hs: Seq<(char, char)>, rows: Seq<Seq<Seq<char>>>, b: int, o: int)
    requires
        0 <= b < hs.len(),
        0 <= o < 154,
    ensures
        blocks_text(hs, rows)[154 * b + o] == block_char(hs, rows, b, o),
{
    lemma_div_mod(154 * b + o, 154, b, o);
}

proof fn lemma_header_line(hs: Seq<(char, char)>, rows: Seq<Seq<Seq<char>>>, b: int)
    requires
        blocks_ok(hs, rows),
        0 <= b < hs.len(),
    ensures
        line_end(blocks_text(hs, rows), 154 * b) == 154 * b + 10,
        is_header_line(line_at(blocks_text(hs, rows), 154 * b)),
{
    let t = blocks_text(hs, rows);
    let i = 154 * b;
    let pat = header_pattern();
    assert(pat[0] == 'c' && pat[1] == 'h' && pat[2] == 'a' && pat[3] == 'r' && pat[4] == ' '
        && pat[5] == '0' && pat[6] == 'x');
    assert(hs[b].0 != '\n' && hs[b].1 != '\n');
    assert forall|j: int| i <= j < i + 9 implies t[j] != '\n' by {
        lemma_blocks_char(hs, rows, b, j - i);
    }
    lemma_blocks_char(hs, rows, b, 9);
    lemma_line_end_run(t, i, i + 9);
    let l = line_at(t, i);
    assert forall|o: int| 0 <= o < 7 implies l.subrange(0, 7)[o] == pat[o] by {
        lemma_blocks_char(hs, rows, b, o);
    }
    assert(l.subrange(0, 7) =~= pat);
    lemma_blocks_char(hs, rows, b, 7);
    assert(header_at(l, 0));
}

proof fn lemma_glyph_row(hs: Seq<(char, char)>, rows: Seq<Seq<Seq<char>>>, b: int, r: int)
    requires
        blocks_ok(hs, rows),
        0 <= b < hs.len(),
        0 <= r < 16,
    ensures
        glyph_lines(blocks_text(hs, rows), 154 * b + 10)[r] == rows[b][r].push('\n'),
{
    let t = blocks_text(hs, rows);
    let e = 154 * b + 10;
    lemma_row_lines(hs, rows, b, r);
    lemma_row_lines(hs, rows, b, r + 1);
    assert(row_start(t, e, (r + 1) as nat) == line_end(t, row_start(t, e, r as nat)));
    assert forall|c: int| 0 <= c < 9 implies t[e + 9 * r + c] == rows[b][r].push('\n')[c] by {
        lemma_div_mod(9 * r + c, 9, r, c);
        lemma_blocks_char(hs, rows, b, 10 + 9 * r + c);
    }
    assert(glyph_lines(t, e)[r] =~= rows[b][r].push('\n'));
}

proof fn lemma_glyph_block(hs: Seq<(char, char)>, rows: Seq<Seq<Seq<char>>>, b: int)
    requires
        blocks_ok(hs, rows),
        0 <= b < hs.len(),
    ensures
        glyph_lines(blocks_text(hs, rows), 154 * b + 10) == Seq::new(16, |r: int| rows[b][r].push('\n')),
        glyph_lines_ok(blocks_text(hs, rows), 154 * b + 10),
        row_start(blocks_text(hs, rows), 154 * b + 10, 16) == 154 * (b + 1),
{
    let t = blocks_text(hs, rows);
    let e = 154 * b + 10;
    assert forall|r: int| 0 <= r < 16 implies #[trigger] glyph_lines(t, e)[r] == rows[b][r].push('\n') by {
        lemma_glyph_row(hs, rows, b, r);
    }
    assert(glyph_lines(t, e) =~= Seq::new(16, |r: int| rows[b][r].push('\n')));
    lemma_row_lines(hs, rows, b, 16);
}

proof fn lemma_blocks_from(hs: Seq<(char, char)>, rows: Seq<Seq<Seq<char>>>, b: int)
    requires
        blocks_ok(hs, rows),
        0 <= b <= hs.len(),
    ensures
        font_lines(blocks_text(hs, rows), 154 * b) == Some(
            Seq::new(
                (hs.len() - b) as nat,
                |x: int| Seq::new(16, |r: int| rows[b + x][r].push('\n')),
            ),
        ),
    decreases hs.len() - b,
{
    let t = blocks_text(hs, rows);
    let k = hs.len() as int;
    let want = Seq::new((k - b) as nat, |x: int| Seq::new(16, |r: int| rows[b + x][r].push('\n')));
    if b == k {
        assert(want =~= Seq::empty());
    } else {
        lemma_header_line(hs, rows, b);
        lemma_glyph_block(hs, rows, b);
        lemma_blocks_from(hs, rows, b + 1);
        let g = glyph_lines(t, 154 * b + 10);
        let rest = Seq::new((k - (b + 1)) as nat, |x: int| Seq::new(16, |r: int| rows[b + 1 + x][r].push('\n')));
        assert(font_lines(t, 154 * b) == Some(seq![g] + rest));
        assert(seq![g] + rest =~= want);
    }
}

proof fn lemma_row_lines(hs: Seq<(char, char)>, rows: Seq<Seq<Seq<char>>>, b: int, r: int)
    requires
        blocks_ok(hs, rows),
        0 <= b < hs.len(),
        0 <= r <= 16,
    ensures
        row_start(blocks_text(hs, rows), 154 * b + 10, r as nat) == 154 * b + 10 + 9 * r,
    decreases r,
{
    let t = blocks_text(hs, rows);
    let i = 154 * b;
    let e = i + 10;
    if r > 0 {
        lemma_row_lines(hs, rows, b, r - 1);
        let s = e + 9 * (r - 1);
        assert forall|j: int| s <= j < s + 8 implies t[j] != '\n' by {
            let c = j - s;
            lemma_div_mod(9 * (r - 1) + c, 9, r - 1, c);
            lemma_blocks_char(hs, rows, b, 10 + 9 * (r - 1) + c);
            assert(j == i + (10 + 9 * (r - 1) + c));
        }
        lemma_div_mod(9 * (r - 1) + 8, 9, r - 1, 8);
        lemma_blocks_char(hs, rows, b, 10 + 9 * (r - 1) + 8);
        assert(s + 8 == i + (10 + 9 * (r - 1) + 8));
        lemma_line_end_run(t, s, s + 8);
    }
}

/// Glyph blocks written back to back, each a header line and sixteen row
/// lines, are read one glyph per block, in order, each made of its block's
/// rows: reading a glyph takes exactly its header line and its sixteen rows.
pub proof fn lemma_blocks_read(hs: Seq<(char, char)>, rows: Seq<Seq<Seq<char>>>)
    requires
        blocks_ok(hs, rows),
    ensures
        font_lines(blocks_text(hs, rows), 0) == Some(
            Seq::new(hs.len(), |b: int| Seq::new(16, |r: int| rows[b][r].push('\n'))),
        ),
{
    lemma_blocks_from(hs, rows, 0);
    assert(Seq::new(hs.len(), |b: int| Seq::new(16, |r: int| rows[b][r].push('\n'))) =~= Seq::new(
        (hs.len() - 0) as nat,
        |x: int| Seq::new(16, |r: int| rows[0 + x][r].push('\n')),
    ));
}

} // verus!

verus! {

/// A text of 256 glyph blocks written back to back is a whole font (so
/// `font_from_text` returns a table), and pixel `j` of row `r` of glyph `b`
/// is set exactly when character `j` of that block's row `r` is `*`.
pub proof fn lemma_blocks_font(hs: Seq<(char, char)>, rows: Seq<Seq<Seq<char>>>)
    requires
        blocks_ok(hs, rows),
        hs.len() == 256,
    ensures
        font_lines(blocks_text(hs, rows), 0) matches Some(g) && g.len() == 256,
        forall|b: int, r: int, j: int|
            0 <= b < 256 && 0 <= r < 16 && 0 <= j < 8 ==> font_lines(blocks_text(hs, rows), 0)->0[b][r][j]
                == #[trigger] rows[b][r][j],
{
    lemma_blocks_read(hs, rows);
    let g = Seq::new(hs.len(), |b: int| Seq::new(16, |r: int| rows[b][r].push('\n')));
    assert forall|b: int, r: int, j: int| 0 <= b < 256 && 0 <= r < 16 && 0 <= j < 8 implies g[b][r][j]
        == #[trigger] rows[b][r][j] by {
        assert(rows[b][r].len() == 8);
        assert(rows[b][r].push('\n')[j] == rows[b][r][j]);
    }
}

} // verus!
