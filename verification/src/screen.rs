//! A character-cell terminal screen that repaints only what changed.

use vstd::prelude::*;
use vstd::utf8::{
    encode_scalar, has_width_1_encoding, has_width_2_encoding, has_width_3_encoding,
    has_width_4_encoding, is_scalar, last_continuation_byte, leading_byte_width_1,
    leading_byte_width_2, leading_byte_width_3, leading_byte_width_4, second_last_continuation_byte,
    third_last_continuation_byte,
};

verus! {

/// Foreground colours a cell can carry.
#[derive(Clone, Copy, PartialEq, Eq, Debug, Structural)]
pub enum Fg {
    Default,
    Cyan,
    Red,
    Yellow,
    LightBlue,
}

/// The number a colour is stored as in a cell.
pub open spec fn fg_code(f: Fg) -> u8 {
    match f {
        Fg::Default => 0,
        Fg::Cyan => 1,
        Fg::Red => 2,
        Fg::Yellow => 3,
        Fg::LightBlue => 4,
    }
}

/// The colour a stored number stands for; unknown numbers are the default.
pub open spec fn fg_of(v: u8) -> Fg {
    if v == 1 {
        Fg::Cyan
    } else if v == 2 {
        Fg::Red
    } else if v == 3 {
        Fg::Yellow
    } else if v == 4 {
        Fg::LightBlue
    } else {
        Fg::Default
    }
}

/// The escape sequence (SGR) that selects a colour: ESC `[` n `m`.
pub open spec fn sgr_bytes(f: Fg) -> Seq<u8> {
    match f {
        Fg::Default => seq![0x1bu8, 0x5b, 0x30, 0x6d],
        Fg::Cyan => seq![0x1bu8, 0x5b, 0x33, 0x36, 0x6d],
        Fg::Red => seq![0x1bu8, 0x5b, 0x33, 0x31, 0x6d],
        Fg::Yellow => seq![0x1bu8, 0x5b, 0x33, 0x33, 0x6d],
        Fg::LightBlue => seq![0x1bu8, 0x5b, 0x39, 0x34, 0x6d],
    }
}

impl Fg {
    /// The escape sequence that selects this colour.
    pub fn sgr(self) -> (s: &'static [u8])
        ensures
            s@ == sgr_bytes(self),
    {
        match self {
            Fg::Default => {
                let a: &'static [u8; 4] = &[0x1b, 0x5b, 0x30, 0x6d];
                a.as_slice()
            },
            Fg::Cyan => {
                let a: &'static [u8; 5] = &[0x1b, 0x5b, 0x33, 0x36, 0x6d];
                a.as_slice()
            },
            Fg::Red => {
                let a: &'static [u8; 5] = &[0x1b, 0x5b, 0x33, 0x31, 0x6d];
                a.as_slice()
            },
            Fg::Yellow => {
                let a: &'static [u8; 5] = &[0x1b, 0x5b, 0x33, 0x33, 0x6d];
                a.as_slice()
            },
            Fg::LightBlue => {
                let a: &'static [u8; 5] = &[0x1b, 0x5b, 0x39, 0x34, 0x6d];
                a.as_slice()
            },
        }
    }

    /// The colour stored as `v`; unknown numbers give `Default`.
    pub fn from_u8(v: u8) -> (f: Fg)
        ensures
            f == fg_of(v),
    {
        match v {
            1 => Fg::Cyan,
            2 => Fg::Red,
            3 => Fg::Yellow,
            4 => Fg::LightBlue,
            _ => Fg::Default,
        }
    }
}

/// Reading back the number a colour is stored as gives the colour.
pub proof fn law_fg_code_round_trip(f: Fg)
    ensures
        fg_of(fg_code(f)) == f,
{
}

/// The character code held in a cell.
pub open spec fn cell_code(cell: u64) -> u32 {
    (cell >> 8u64) as u32
}

/// The colour number held in a cell.
pub open spec fn cell_fg(cell: u64) -> u8 {
    (cell & 0xffu64) as u8
}

/// The cell holding character code `code` in colour number `fg`.
pub open spec fn packed(code: u32, fg: u8) -> u64 {
    (code as int * 256 + fg as int) as u64
}

/// A character and a colour number packed into one cell.
pub fn pack(ch: char, fg: u8) -> (cell: u64)
    ensures
        cell == packed(ch as u32, fg),
        cell_code(cell) == ch as u32,
        cell_fg(cell) == fg,
{
    let c = ch as u64;
    let f = fg as u64;
    assert(c <= 0x10ffff);
    let cell = c << 8 | f;
    assert(cell == c * 256 + f && ((cell >> 8u64) as u32) == c as u32 && ((cell & 0xffu64) as u8)
        == f as u8) by (bit_vector)
        requires
            c <= 0x10ffff,
            f <= 0xff,
            cell == c << 8 | f,
    ;
    cell
}

/// Unpacking a packed cell gives back its character and colour.
pub proof fn law_pack_round_trip(code: u32, fg: u8)
    requires
        code <= 0x10ffff,
    ensures
        cell_code(packed(code, fg)) == code,
        cell_fg(packed(code, fg)) == fg,
{
    let c = code as u64;
    let f = fg as u64;
    let x = packed(code, fg);
    assert(x == c * 256 + f);
    assert((x >> 8u64) as u32 == c as u32 && (x & 0xffu64) as u8 == f as u8) by (bit_vector)
        requires
            c <= 0x10ffff,
            f <= 0xff,
            x == c * 256 + f,
    ;
}

/// The UTF-8 bytes shown for a character code: its encoding when it is a
/// Unicode scalar value, else a space.
pub open spec fn glyph_bytes(code: u32) -> Seq<u8> {
    if is_scalar(code) {
        encode_scalar(code)
    } else {
        seq![0x20u8]
    }
}

/// Appends the UTF-8 encoding of `code`, or a space when `code` is not a
/// Unicode scalar value.
pub fn push_glyph(out: &mut Vec<u8>, code: u32)
    ensures
        final(out)@ == old(out)@ + glyph_bytes(code),
{
    if code <= 0x7f {
        out.push((code & 0x7f) as u8);
    } else if code <= 0x7ff {
        out.push(0xc0 | ((code >> 6) & 0x1f) as u8);
        out.push(0x80 | (code & 0x3f) as u8);
    } else if code <= 0xffff && !(0xd800 <= code && code <= 0xdfff) {
        out.push(0xe0 | ((code >> 12) & 0x0f) as u8);
        out.push(0x80 | ((code >> 6) & 0x3f) as u8);
        out.push(0x80 | (code & 0x3f) as u8);
    } else if 0x10000 <= code && code <= 0x10ffff {
        out.push(0xf0 | ((code >> 18) & 0x7) as u8);
        out.push(0x80 | ((code >> 12) & 0x3f) as u8);
        out.push(0x80 | ((code >> 6) & 0x3f) as u8);
        out.push(0x80 | (code & 0x3f) as u8);
    } else {
        out.push(0x20);
    }
    assert(out@ =~= old(out)@ + glyph_bytes(code));
}

/// The decimal digits of `n`, most significant first.
pub open spec fn decimal(n: nat) -> Seq<u8>
    decreases n,
{
    if n < 10 {
        seq![(0x30 + n) as u8]
    } else {
        decimal(n / 10) + seq![(0x30 + n % 10) as u8]
    }
}

/// The escape sequence that moves the cursor to `row`, `col` (0-based):
/// ESC `[` row+1 `;` col+1 `H`.
pub open spec fn cursor_bytes(row: nat, col: nat) -> Seq<u8> {
    seq![0x1bu8, 0x5bu8] + decimal(row + 1) + seq![0x3bu8] + decimal(col + 1) + seq![0x48u8]
}

/// The packed blank cell: a space in the default colour.
pub const SPACE: u64 = 0x2000;

/// The escape sequence that clears the whole terminal: ESC `[2J`.
pub open spec fn clear_bytes() -> Seq<u8> {
    seq![0x1bu8, 0x5b, 0x32, 0x4a]
}

/// The bytes for one changed cell: its colour's escape sequence when the
/// colour differs from `last` (the previous cell's colour in this run, 255
/// at the start of a run), then its character.
pub open spec fn cell_bytes(cell: u64, last: int) -> Seq<u8> {
    (if cell_fg(cell) as int != last {
        sgr_bytes(fg_of(cell_fg(cell)))
    } else {
        Seq::empty()
    }) + glyph_bytes(cell_code(cell))
}

/// The bytes that bring row `y` (cells `base..base + w`) from `prev` to `cur`,
/// from column `x` on.  Each run of changed cells starts with a cursor move
/// and a fresh colour; unchanged cells are skipped.  `in_run` tells whether
/// column `x - 1` was changed, and `last` is then its colour.
pub open spec fn row_bytes(
    cur: Seq<u64>,
    prev: Seq<u64>,
    base: int,
    w: int,
    y: int,
    x: int,
    in_run: bool,
    last: int,
) -> Seq<u8>
    decreases w - x,
{
    if x >= w {
        Seq::empty()
    } else if cur[base + x] == prev[base + x] {
        row_bytes(cur, prev, base, w, y, x + 1, false, 0)
    } else if !in_run {
        cursor_bytes(y as nat, x as nat) + cell_bytes(cur[base + x], 255) + row_bytes(
            cur,
            prev,
            base,
            w,
            y,
            x + 1,
            true,
            cell_fg(cur[base + x]) as int,
        )
    } else {
        cell_bytes(cur[base + x], last) + row_bytes(
            cur,
            prev,
            base,
            w,
            y,
            x + 1,
            true,
            cell_fg(cur[base + x]) as int,
        )
    }
}

/// The bytes that bring rows `0..y` of a `w`-wide screen from `prev` to `cur`.
pub open spec fn rows_bytes(cur: Seq<u64>, prev: Seq<u64>, w: int, y: int) -> Seq<u8>
    decreases y,
{
    if y <= 0 {
        Seq::empty()
    } else {
        rows_bytes(cur, prev, w, y - 1) + row_bytes(cur, prev, (y - 1) * w, w, y - 1, 0, false, 0)
    }
}

/// All the bytes of one frame: a clear-screen first when one is pending.
pub open spec fn frame_bytes(cur: Seq<u64>, prev: Seq<u64>, w: int, h: int, clear: bool) -> Seq<u8> {
    (if clear {
        clear_bytes()
    } else {
        Seq::empty()
    }) + rows_bytes(cur, prev, w, h)
}

/// How many of the first `n` cells differ.
pub open spec fn diff_count(cur: Seq<u64>, prev: Seq<u64>, n: int) -> int
    decreases n,
{
    if n <= 0 {
        0
    } else {
        diff_count(cur, prev, n - 1) + if cur[n - 1] != prev[n - 1] {
            1int
        } else {
            0
        }
    }
}

proof fn lemma_same_row_silent(cur: Seq<u64>, base: int, w: int, y: int, x: int, in_run: bool, last: int)
    requires
        0 <= base,
        base + w <= cur.len(),
        0 <= x,
    ensures
        row_bytes(cur, cur, base, w, y, x, in_run, last) == Seq::<u8>::empty(),
    decreases w - x,
{
    if x < w {
        lemma_same_row_silent(cur, base, w, y, x + 1, false, 0);
    }
}

proof fn lemma_same_rows_silent(cur: Seq<u64>, w: int, y: int)
    requires
        0 <= w,
        0 <= y,
        y * w <= cur.len(),
    ensures
        rows_bytes(cur, cur, w, y) == Seq::<u8>::empty(),
    decreases y,
{
    if y > 0 {
        assert((y - 1) * w + w == y * w) by (nonlinear_arith);
        assert(0 <= (y - 1) * w) by (nonlinear_arith)
            requires
                y >= 1,
                w >= 0,
        ;
        lemma_same_rows_silent(cur, w, y - 1);
        lemma_same_row_silent(cur, (y - 1) * w, w, y - 1, 0, false, 0);
    }
}

proof fn lemma_same_diff_count(cur: Seq<u64>, n: int)
    ensures
        diff_count(cur, cur, n) == 0,
    decreases n,
{
    if n > 0 {
        lemma_same_diff_count(cur, n - 1);
    }
}

/// Presenting a frame identical to the one on the terminal sends nothing
/// and reports no changed cell (unless a clear is pending).
pub proof fn law_same_frame_sends_nothing(cur: Seq<u64>, w: int, h: int)
    requires
        0 <= w,
        0 <= h,
        cur.len() == w * h,
    ensures
        frame_bytes(cur, cur, w, h, false) == Seq::<u8>::empty(),
        diff_count(cur, cur, w * h) == 0,
{
    assert(h * w == w * h) by (nonlinear_arith);
    lemma_same_rows_silent(cur, w, h);
    lemma_same_diff_count(cur, w * h);
    assert(frame_bytes(cur, cur, w, h, false) =~= Seq::<u8>::empty());
}

/// One instruction of a frame to the terminal.
pub enum Token {
    /// Blank the whole screen.
    Clear,
    /// Move the cursor to a row and column.
    Move(nat, nat),
    /// Select the colour of what is written next.
    Colour(Fg),
    /// Write a character at the cursor and step the cursor right.
    Glyph(u32),
}

/// The bytes a terminal reads as `t`.
pub open spec fn token_bytes(t: Token) -> Seq<u8> {
    match t {
        Token::Clear => clear_bytes(),
        Token::Move(r, c) => cursor_bytes(r, c),
        Token::Colour(f) => sgr_bytes(f),
        Token::Glyph(code) => glyph_bytes(code),
    }
}

/// The bytes of a sequence of instructions, one after the other.
pub open spec fn encode(ts: Seq<Token>) -> Seq<u8>
    decreases ts.len(),
{
    if ts.len() == 0 {
        Seq::empty()
    } else {
        token_bytes(ts[0]) + encode(ts.subrange(1, ts.len() as int))
    }
}

/// What a terminal holds: its cursor, the colour it writes in, and the
/// colour and character at every position.
pub struct TermState {
    pub row: int,
    pub col: int,
    pub fg: Fg,
    pub cells: spec_fn(int, int) -> (Fg, u32),
}

/// The character a terminal shows for a code: the code itself when it is a
/// Unicode scalar value, else a space.
pub open spec fn displayed(code: u32) -> u32 {
    if is_scalar(code) {
        code
    } else {
        0x20
    }
}

/// What a packed cell looks like on a terminal.
pub open spec fn looks(cell: u64) -> (Fg, u32) {
    (fg_of(cell_fg(cell)), displayed(cell_code(cell)))
}

/// The terminal after one instruction.
pub open spec fn step(t: TermState, tok: Token) -> TermState {
    match tok {
        Token::Clear => TermState { cells: |r: int, c: int| (Fg::Default, 0x20u32), ..t },
        Token::Move(r, c) => TermState { row: r as int, col: c as int, ..t },
        Token::Colour(f) => TermState { fg: f, ..t },
        Token::Glyph(code) => TermState {
            col: t.col + 1,
            cells: |r: int, c: int|
                if r == t.row && c == t.col {
                    (t.fg, displayed(code))
                } else {
                    (t.cells)(r, c)
                },
            ..t
        },
    }
}

/// The terminal after a sequence of instructions.
pub open spec fn replay(ts: Seq<Token>, t: TermState) -> TermState
    decreases ts.len(),
{
    if ts.len() == 0 {
        t
    } else {
        replay(ts.subrange(1, ts.len() as int), step(t, ts[0]))
    }
}

/// The terminal shows the `w` x `h` screen `s`, row by row.
pub open spec fn shows(t: TermState, s: Seq<u64>, w: int, h: int) -> bool {
    forall|r: int, c: int| 0 <= r < h && 0 <= c < w ==> #[trigger] (t.cells)(r, c) == looks(s[r * w + c])
}

/// The instructions for one changed cell (see `cell_bytes`).
pub open spec fn cell_tokens(cell: u64, last: int) -> Seq<Token> {
    (if cell_fg(cell) as int != last {
        seq![Token::Colour(fg_of(cell_fg(cell)))]
    } else {
        Seq::empty()
    }) + seq![Token::Glyph(cell_code(cell))]
}

/// The instructions for row `y` from column `x` on (see `row_bytes`).
pub open spec fn row_tokens(
    cur: Seq<u64>,
    prev: Seq<u64>,
    base: int,
    w: int,
    y: int,
    x: int,
    in_run: bool,
    last: int,
) -> Seq<Token>
    decreases w - x,
{
    if x >= w {
        Seq::empty()
    } else if cur[base + x] == prev[base + x] {
        row_tokens(cur, prev, base, w, y, x + 1, false, 0)
    } else if !in_run {
        seq![Token::Move(y as nat, x as nat)] + cell_tokens(cur[base + x], 255) + row_tokens(
            cur,
            prev,
            base,
            w,
            y,
            x + 1,
            true,
            cell_fg(cur[base + x]) as int,
        )
    } else {
        cell_tokens(cur[base + x], last) + row_tokens(
            cur,
            prev,
            base,
            w,
            y,
            x + 1,
            true,
            cell_fg(cur[base + x]) as int,
        )
    }
}

/// The instructions for rows `0..y`.
pub open spec fn rows_tokens(cur: Seq<u64>, prev: Seq<u64>, w: int, y: int) -> Seq<Token>
    decreases y,
{
    if y <= 0 {
        Seq::empty()
    } else {
        rows_tokens(cur, prev, w, y - 1) + row_tokens(cur, prev, (y - 1) * w, w, y - 1, 0, false, 0)
    }
}

/// The instructions of a frame.
pub open spec fn frame_tokens(cur: Seq<u64>, prev: Seq<u64>, w: int, h: int, clear: bool) -> Seq<
    Token,
> {
    (if clear {
        seq![Token::Clear]
    } else {
        Seq::empty()
    }) + rows_tokens(cur, prev, w, h)
}

proof fn lemma_encode_append(a: Seq<Token>, b: Seq<Token>)
    ensures
        encode(a + b) == encode(a) + encode(b),
    decreases a.len(),
{
    if a.len() == 0 {
        assert(a + b =~= b);
    } else {
        assert((a + b).subrange(1, (a + b).len() as int) =~= a.subrange(1, a.len() as int) + b);
        lemma_encode_append(a.subrange(1, a.len() as int), b);
        assert(encode(a + b) =~= encode(a) + encode(b));
    }
}

proof fn lemma_replay_append(a: Seq<Token>, b: Seq<Token>, t: TermState)
    ensures
        replay(a + b, t) == replay(b, replay(a, t)),
    decreases a.len(),
{
    if a.len() == 0 {
        assert(a + b =~= b);
    } else {
        assert((a + b).subrange(1, (a + b).len() as int) =~= a.subrange(1, a.len() as int) + b);
        lemma_replay_append(a.subrange(1, a.len() as int), b, step(t, a[0]));
    }
}

proof fn lemma_encode_one(tok: Token)
    ensures
        encode(seq![tok]) == token_bytes(tok),
{
    assert(seq![tok].subrange(1, 1) =~= Seq::<Token>::empty());
    assert(encode(Seq::<Token>::empty()) == Seq::<u8>::empty());
    assert(encode(seq![tok]) =~= token_bytes(tok));
}

proof fn lemma_replay_one(tok: Token, t: TermState)
    ensures
        replay(seq![tok], t) == step(t, tok),
{
    assert(seq![tok].subrange(1, 1) =~= Seq::<Token>::empty());
    assert(replay(Seq::<Token>::empty(), step(t, tok)) == step(t, tok));
}

proof fn lemma_cell_encodes(cell: u64, last: int)
    ensures
        encode(cell_tokens(cell, last)) == cell_bytes(cell, last),
{
    let head = if cell_fg(cell) as int != last {
        seq![Token::Colour(fg_of(cell_fg(cell)))]
    } else {
        Seq::empty()
    };
    lemma_encode_append(head, seq![Token::Glyph(cell_code(cell))]);
    lemma_encode_one(Token::Glyph(cell_code(cell)));
    if cell_fg(cell) as int != last {
        lemma_encode_one(Token::Colour(fg_of(cell_fg(cell))));
    } else {
        assert(encode(head) == Seq::<u8>::empty());
    }
}

proof fn lemma_row_encodes(
    cur: Seq<u64>,
    prev: Seq<u64>,
    base: int,
    w: int,
    y: int,
    x: int,
    in_run: bool,
    last: int,
)
    ensures
        encode(row_tokens(cur, prev, base, w, y, x, in_run, last)) == row_bytes(
            cur,
            prev,
            base,
            w,
            y,
            x,
            in_run,
            last,
        ),
    decreases w - x,
{
    if x >= w {
    } else if cur[base + x] == prev[base + x] {
        lemma_row_encodes(cur, prev, base, w, y, x + 1, false, 0);
    } else {
        let cell = cur[base + x];
        let rest = row_tokens(cur, prev, base, w, y, x + 1, true, cell_fg(cell) as int);
        lemma_row_encodes(cur, prev, base, w, y, x + 1, true, cell_fg(cell) as int);
        if !in_run {
            let mv = seq![Token::Move(y as nat, x as nat)];
            lemma_encode_append(mv + cell_tokens(cell, 255), rest);
            lemma_encode_append(mv, cell_tokens(cell, 255));
            lemma_encode_one(Token::Move(y as nat, x as nat));
            lemma_cell_encodes(cell, 255);
        } else {
            lemma_encode_append(cell_tokens(cell, last), rest);
            lemma_cell_encodes(cell, last);
        }
    }
}

proof fn lemma_rows_encode(cur: Seq<u64>, prev: Seq<u64>, w: int, y: int)
    ensures
        encode(rows_tokens(cur, prev, w, y)) == rows_bytes(cur, prev, w, y),
    decreases y,
{
    if y > 0 {
        lemma_rows_encode(cur, prev, w, y - 1);
        lemma_row_encodes(cur, prev, (y - 1) * w, w, y - 1, 0, false, 0);
        lemma_encode_append(
            rows_tokens(cur, prev, w, y - 1),
            row_tokens(cur, prev, (y - 1) * w, w, y - 1, 0, false, 0),
        );
    }
}

/// Writing one changed cell: its colour is selected when needed, its
/// character lands at the cursor, and the cursor steps right.
proof fn lemma_cell_replay(cell: u64, last: int, t: TermState)
    requires
        cell_fg(cell) != 255,
        last == 255 || t.fg == fg_of(last as u8),
    ensures
        ({
            let t2 = replay(cell_tokens(cell, last), t);
            &&& t2.row == t.row
            &&& t2.col == t.col + 1
            &&& t2.fg == fg_of(cell_fg(cell))
            &&& (t2.cells)(t.row, t.col) == looks(cell)
            &&& forall|r: int, c: int|
                !(r == t.row && c == t.col) ==> #[trigger] (t2.cells)(r, c) == (t.cells)(r, c)
        }),
{
    let glyph = seq![Token::Glyph(cell_code(cell))];
    if cell_fg(cell) as int != last {
        let colour = Token::Colour(fg_of(cell_fg(cell)));
        lemma_replay_append(seq![colour], glyph, t);
        lemma_replay_one(colour, t);
        lemma_replay_one(Token::Glyph(cell_code(cell)), step(t, colour));
    } else {
        assert(cell_tokens(cell, last) =~= glyph);
        lemma_replay_one(Token::Glyph(cell_code(cell)), t);
    }
}

/// Replaying a row's instructions writes every changed cell of the row from
/// column `x` on at its own position, and touches nothing else.
proof fn lemma_row_replay(
    cur: Seq<u64>,
    prev: Seq<u64>,
    base: int,
    w: int,
    y: int,
    x: int,
    in_run: bool,
    last: int,
    t: TermState,
)
    requires
        0 <= base,
        0 <= x,
        0 <= y,
        base + w <= cur.len(),
        base + w <= prev.len(),
        forall|c: int| x <= c < w ==> cell_fg(#[trigger] cur[base + c]) != 255,
        forall|c: int| x <= c < w ==> #[trigger] (t.cells)(y, c) == looks(prev[base + c]),
        in_run ==> t.row == y && t.col == x && 0 <= last < 255 && t.fg == fg_of(last as u8),
    ensures
        ({
            let t2 = replay(row_tokens(cur, prev, base, w, y, x, in_run, last), t);
            &&& forall|c: int| x <= c < w ==> #[trigger] (t2.cells)(y, c) == looks(cur[base + c])
            &&& forall|r: int, c: int|
                !(r == y && x <= c < w) ==> #[trigger] (t2.cells)(r, c) == (t.cells)(r, c)
        }),
    decreases w - x,
{
    if x >= w {
    } else if cur[base + x] == prev[base + x] {
        lemma_row_replay(cur, prev, base, w, y, x + 1, false, 0, t);
        assert((t.cells)(y, x) == looks(prev[base + x]));
    } else {
        let cell = cur[base + x];
        assert(cell_fg(cur[base + x]) != 255);
        let rest = row_tokens(cur, prev, base, w, y, x + 1, true, cell_fg(cell) as int);
        if !in_run {
            let mv = Token::Move(y as nat, x as nat);
            let head = seq![mv] + cell_tokens(cell, 255);
            lemma_replay_append(head, rest, t);
            lemma_replay_append(seq![mv], cell_tokens(cell, 255), t);
            lemma_replay_one(mv, t);
            let t1 = step(t, mv);
            lemma_cell_replay(cell, 255, t1);
            let t2 = replay(head, t);
            lemma_row_replay(cur, prev, base, w, y, x + 1, true, cell_fg(cell) as int, t2);
        } else {
            lemma_replay_append(cell_tokens(cell, last), rest, t);
            lemma_cell_replay(cell, last, t);
            let t2 = replay(cell_tokens(cell, last), t);
            lemma_row_replay(cur, prev, base, w, y, x + 1, true, cell_fg(cell) as int, t2);
        }
    }
}

proof fn lemma_rows_replay(cur: Seq<u64>, prev: Seq<u64>, w: int, y: int, t: TermState)
    requires
        0 <= w,
        0 <= y,
        y * w <= cur.len(),
        y * w <= prev.len(),
        forall|i: int| 0 <= i < cur.len() ==> cell_fg(#[trigger] cur[i]) != 255,
        forall|r: int, c: int|
            0 <= r < y && 0 <= c < w ==> #[trigger] (t.cells)(r, c) == looks(prev[r * w + c]),
    ensures
        ({
            let t2 = replay(rows_tokens(cur, prev, w, y), t);
            &&& forall|r: int, c: int|
                0 <= r < y && 0 <= c < w ==> #[trigger] (t2.cells)(r, c) == looks(cur[r * w + c])
            &&& forall|r: int, c: int|
                !(0 <= r < y && 0 <= c < w) ==> #[trigger] (t2.cells)(r, c) == (t.cells)(r, c)
        }),
    decreases y,
{
    if y > 0 {
        assert((y - 1) * w + w == y * w) by (nonlinear_arith);
        assert(0 <= (y - 1) * w) by (nonlinear_arith)
            requires
                y >= 1,
                w >= 0,
        ;
        assert((y - 1) * w <= y * w) by (nonlinear_arith)
            requires
                w >= 0,
        ;
        lemma_rows_replay(cur, prev, w, y - 1, t);
        let base = (y - 1) * w;
        let t1 = replay(rows_tokens(cur, prev, w, y - 1), t);
        assert forall|c: int| 0 <= c < w implies #[trigger] (t1.cells)(y - 1, c) == looks(
            prev[base + c],
        ) by {
            assert((t1.cells)(y - 1, c) == (t.cells)(y - 1, c));
        }
        assert forall|c: int| 0 <= c < w implies cell_fg(#[trigger] cur[base + c]) != 255 by {
            assert(0 <= base + c < cur.len());
        }
        lemma_row_replay(cur, prev, base, w, y - 1, 0, false, 0, t1);
        lemma_replay_append(
            rows_tokens(cur, prev, w, y - 1),
            row_tokens(cur, prev, base, w, y - 1, 0, false, 0),
            t,
        );
    }
}

/// A frame does what it is for: its bytes are a sequence of terminal
/// instructions (cursor moves, colour selections, characters), and a
/// terminal that shows the previous frame shows the new one once it has
/// followed them, every cell at its own row and column in its own colour.
/// With a clear pending, the terminal is blanked first and then shows the
/// new frame whatever it held, as the previous frame is then blank.  Cells
/// must not hold colour number 255, which marks the start of a run.
pub proof fn law_frame_repaints_the_screen(
    cur: Seq<u64>,
    prev: Seq<u64>,
    w: int,
    h: int,
    clear: bool,
    t: TermState,
)
    requires
        0 <= w,
        0 <= h,
        cur.len() == w * h,
        prev.len() == w * h,
        forall|i: int| 0 <= i < cur.len() ==> cell_fg(#[trigger] cur[i]) != 255,
        !clear ==> shows(t, prev, w, h),
        clear ==> forall|i: int| 0 <= i < prev.len() ==> #[trigger] prev[i] == SPACE,
    ensures
        frame_bytes(cur, prev, w, h, clear) == encode(frame_tokens(cur, prev, w, h, clear)),
        shows(replay(frame_tokens(cur, prev, w, h, clear), t), cur, w, h),
{
    assert(h * w == w * h) by (nonlinear_arith);
    let head = if clear {
        seq![Token::Clear]
    } else {
        Seq::empty()
    };
    lemma_encode_append(head, rows_tokens(cur, prev, w, h));
    lemma_rows_encode(cur, prev, w, h);
    lemma_replay_append(head, rows_tokens(cur, prev, w, h), t);
    if clear {
        lemma_encode_one(Token::Clear);
        lemma_replay_one(Token::Clear, t);
    } else {
        assert(encode(head) == Seq::<u8>::empty());
        assert(replay(head, t) == t);
    }
    let t1 = replay(head, t);
    assert forall|r: int, c: int| 0 <= r < h && 0 <= c < w implies #[trigger] (t1.cells)(r, c)
        == looks(prev[r * w + c]) by {
        assert(0 <= r * w + c < w * h) by (nonlinear_arith)
            requires
                0 <= r < h,
                0 <= c < w,
        ;
        if clear {
            assert(prev[r * w + c] == SPACE);
            assert(cell_code(SPACE) == 0x20 && cell_fg(SPACE) == 0) by (bit_vector);
            assert(is_scalar(0x20u32));
        }
    }
    lemma_rows_replay(cur, prev, w, h, t1);
    assert(frame_bytes(cur, prev, w, h, clear) == encode(head) + rows_bytes(cur, prev, w, h));
}

/// A screen of `w` x `h` cells.  `cur` is the frame being drawn, `prev` the
/// frame on the terminal; `present` sends only the difference.
pub struct Screen {
    w: usize,
    h: usize,
    cur: Vec<u64>,
    prev: Vec<u64>,
    out: Vec<u8>,
    full_repaint: bool,
}

impl Screen {
    pub closed spec fn width(&self) -> nat {
        self.w as nat
    }

    pub closed spec fn height(&self) -> nat {
        self.h as nat
    }

    /// The frame being drawn, row by row.
    pub closed spec fn cells(&self) -> Seq<u64> {
        self.cur@
    }

    /// The frame last presented.
    pub closed spec fn shown(&self) -> Seq<u64> {
        self.prev@
    }

    /// Whether the next frame starts by clearing the terminal.
    pub closed spec fn clear_pending(&self) -> bool {
        self.full_repaint
    }

    /// The bytes of the last presented frame.
    pub closed spec fn frame(&self) -> Seq<u8> {
        self.out@
    }

    pub open spec fn wf(&self) -> bool {
        &&& self.cells().len() == self.width() * self.height()
        &&& self.shown().len() == self.width() * self.height()
    }

    /// Appends the decimal digits of `n`.
    pub fn push_usize(out: &mut Vec<u8>, n: usize)
        ensures
            final(out)@ == old(out)@ + decimal(n as nat),
        decreases n,
    {
        if n >= 10 {
            Self::push_usize(out, n / 10);
        }
        out.push(0x30 + (n % 10) as u8);
        assert(out@ =~= old(out)@ + decimal(n as nat));
    }

    /// Appends the escape sequence that moves the cursor to `row`, `col`.
    pub fn push_cursor(out: &mut Vec<u8>, row: usize, col: usize)
        requires
            row < usize::MAX,
            col < usize::MAX,
        ensures
            final(out)@ == old(out)@ + cursor_bytes(row as nat, col as nat),
    {
        out.push(0x1b);
        out.push(0x5b);
        Self::push_usize(out, row + 1);
        out.push(0x3b);
        Self::push_usize(out, col + 1);
        out.push(0x48);
        assert(out@ =~= old(out)@ + cursor_bytes(row as nat, col as nat));
    }
}

/// Appends `bytes`.
fn push_all(out: &mut Vec<u8>, bytes: &[u8])
    ensures
        final(out)@ == old(out)@ + bytes@,
{
    let mut i: usize = 0;
    while i < bytes.len()
        invariant
            i <= bytes@.len(),
            out@ == old(out)@ + bytes@.subrange(0, i as int),
        decreases bytes@.len() - i,
    {
        out.push(bytes[i]);
        i = i + 1;
        assert(out@ =~= old(out)@ + bytes@.subrange(0, i as int));
    }
    assert(bytes@.subrange(0, bytes@.len() as int) =~= bytes@);
}

/// `n` blank cells.
fn blank_cells(n: usize) -> (v: Vec<u64>)
    ensures
        v@ == Seq::new(n as nat, |i: int| SPACE),
{
    let mut v: Vec<u64> = Vec::new();
    let mut i: usize = 0;
    while i < n
        invariant
            i <= n,
            v@ == Seq::new(i as nat, |k: int| SPACE),
        decreases n - i,
    {
        v.push(SPACE);
        i = i + 1;
        assert(v@ =~= Seq::new(i as nat, |k: int| SPACE));
    }
    v
}

proof fn lemma_cell_index(x: int, y: int, w: int, h: int)
    requires
        0 <= x < w,
        0 <= y < h,
    ensures
        0 <= y * w + x < w * h,
        y * w + x + 1 <= (y + 1) * w,
        (y + 1) * w <= w * h,
{
    assert(0 <= y * w + x < w * h) by (nonlinear_arith)
        requires
            0 <= x < w,
            0 <= y < h,
    ;
    assert(y * w + x + 1 <= (y + 1) * w) by (nonlinear_arith)
        requires
            0 <= x < w,
    ;
    assert((y + 1) * w <= w * h) by (nonlinear_arith)
        requires
            0 <= x < w,
            0 <= y < h,
    ;
}

proof fn lemma_diff_count_bound(cur: Seq<u64>, prev: Seq<u64>, n: int)
    requires
        n >= 0,
    ensures
        0 <= diff_count(cur, prev, n) <= n,
    decreases n,
{
    if n > 0 {
        lemma_diff_count_bound(cur, prev, n - 1);
    }
}

impl Screen {
    /// A blank `w` x `h` screen.
    pub fn new(w: usize, h: usize) -> (s: Screen)
        requires
            w * h <= usize::MAX,
        ensures
            s.wf(),
            s.width() == w,
            s.height() == h,
            s.cells() == Seq::new((w * h) as nat, |i: int| SPACE),
            s.shown() == Seq::new((w * h) as nat, |i: int| SPACE),
            !s.clear_pending(),
            s.frame() == Seq::<u8>::empty(),
    {
        let n = w * h;
        Screen {
            w,
            h,
            cur: blank_cells(n),
            prev: blank_cells(n),
            out: Vec::with_capacity(4096),
            full_repaint: false,
        }
    }

    /// Resizes to `w` x `h`, blanking both frames and asking for a full
    /// repaint; nothing changes when the size is the same.
    pub fn resize(&mut self, w: usize, h: usize)
        requires
            w * h <= usize::MAX,
        ensures
            old(self).width() == w && old(self).height() == h ==> *final(self) == *old(self),
            !(old(self).width() == w && old(self).height() == h) ==> {
                &&& final(self).width() == w
                &&& final(self).height() == h
                &&& final(self).cells() == Seq::new((w * h) as nat, |i: int| SPACE)
                &&& final(self).shown() == Seq::new((w * h) as nat, |i: int| SPACE)
                &&& final(self).clear_pending()
                &&& final(self).frame() == old(self).frame()
            },
            old(self).wf() || !(old(self).width() == w && old(self).height() == h)
                ==> final(self).wf(),
    {
        if w == self.w && h == self.h {
            return;
        }
        self.w = w;
        self.h = h;
        self.cur = blank_cells(w * h);
        self.prev = blank_cells(w * h);
        self.full_repaint = true;
    }

    /// The size `(w, h)`.
    pub fn size(&self) -> (r: (usize, usize))
        ensures
            r.0 == self.width(),
            r.1 == self.height(),
    {
        (self.w, self.h)
    }

    /// Draws `ch` in colour number `fg` at column `x`, row `y` of the frame
    /// being drawn; positions off the screen are ignored.
    pub fn set(&mut self, x: usize, y: usize, ch: char, fg: u8)
        requires
            old(self).wf(),
        ensures
            final(self).wf(),
            final(self).width() == old(self).width(),
            final(self).height() == old(self).height(),
            final(self).shown() == old(self).shown(),
            final(self).clear_pending() == old(self).clear_pending(),
            final(self).frame() == old(self).frame(),
            final(self).cells() == (if x < old(self).width() && y < old(self).height() {
                old(self).cells().update(y * old(self).width() + x, packed(ch as u32, fg))
            } else {
                old(self).cells()
            }),
    {
        if x < self.w && y < self.h {
            proof {
                lemma_cell_index(x as int, y as int, self.w as int, self.h as int);
                assert(self.cur@.len() == self.cur.len()) by {
                    broadcast use vstd::std_specs::vec::axiom_spec_len;
                }
            }
            let cell = pack(ch, fg);
            self.cur.set(y * self.w + x, cell);
        }
    }

    /// Sends the frame being drawn: fills the output with the bytes that turn
    /// the presented frame into it (a clear-screen first if one is pending),
    /// makes it the presented frame, blanks the frame being drawn, and
    /// returns how many cells changed.
    pub fn present(&mut self) -> (changed: usize)
        requires
            old(self).wf(),
        ensures
            final(self).wf(),
            final(self).width() == old(self).width(),
            final(self).height() == old(self).height(),
            final(self).frame() == frame_bytes(
                old(self).cells(),
                old(self).shown(),
                old(self).width() as int,
                old(self).height() as int,
                old(self).clear_pending(),
            ),
            changed == diff_count(
                old(self).cells(),
                old(self).shown(),
                (old(self).width() * old(self).height()) as int,
            ),
            final(self).shown() == old(self).cells(),
            final(self).cells() == Seq::new(
                old(self).width() * old(self).height(),
                |i: int| SPACE,
            ),
            !final(self).clear_pending(),
    {
        let ghost cur = self.cur@;
        let ghost prev = self.prev@;
        let w = self.w;
        let h = self.h;
        let n = self.cur.len();
        self.out.clear();
        if self.full_repaint {
            self.out.push(0x1b);
            self.out.push(0x5b);
            self.out.push(0x32);
            self.out.push(0x4a);
            self.full_repaint = false;
        }
        let ghost head = self.out@;
        assert(head =~= (if old(self).full_repaint {
            clear_bytes()
        } else {
            Seq::empty()
        }));
        let mut changed: usize = 0;
        let mut y: usize = 0;
        while y < h
            invariant
                w == self.w,
                h == self.h,
                !self.full_repaint,
                n == w * h,
                self.cur@ == cur,
                self.prev@ == prev,
                cur.len() == n,
                prev.len() == n,
                y <= h,
                self.out@ == head + rows_bytes(cur, prev, w as int, y as int),
                changed == diff_count(cur, prev, y * w),
            decreases h - y,
        {
            proof {
                if w > 0 {
                    lemma_cell_index(0, y as int, w as int, h as int);
                } else {
                    assert(y * w == 0) by (nonlinear_arith)
                        requires
                            w == 0,
                    ;
                }
                assert(y * w + w == (y + 1) * w) by (nonlinear_arith);
                lemma_diff_count_bound(cur, prev, y * w);
            }
            let base = y * w;
            let ghost row_head = self.out@;
            let mut x: usize = 0;
            while x < w
                invariant
                    w == self.w,
                    h == self.h,
                    !self.full_repaint,
                    n == w * h,
                    self.cur@ == cur,
                    self.prev@ == prev,
                    cur.len() == n,
                    prev.len() == n,
                    y < h,
                    base == y * w,
                    base + w <= n,
                    x <= w,
                    self.out@ + row_bytes(cur, prev, base as int, w as int, y as int, x as int, false, 0)
                        == row_head + row_bytes(
                        cur,
                        prev,
                        base as int,
                        w as int,
                        y as int,
                        0,
                        false,
                        0,
                    ),
                    changed == diff_count(cur, prev, base + x),
                    changed <= base + x,
                decreases w - x,
            {
                if self.cur[base + x] == self.prev[base + x] {
                    x = x + 1;
                    continue ;
                }
                let start = x;
                let ghost run_head = self.out@;
                while x < w && self.cur[base + x] != self.prev[base + x]
                    invariant
                        w == self.w,
                        h == self.h,
                        !self.full_repaint,
                        self.out@ == run_head,
                        self.cur@ == cur,
                        self.prev@ == prev,
                        cur.len() == n,
                        prev.len() == n,
                        base + w <= n,
                        start < w,
                        cur[base + start] != prev[base + start],
                        start <= x <= w,
                        forall|j: int| base + start <= j < base + x ==> #[trigger] cur[j] != prev[j],
                        diff_count(cur, prev, base + x) == diff_count(cur, prev, base + start) + (x
                            - start),
                    decreases w - x,
                {
                    x = x + 1;
                }
                let end = x;
                Self::push_cursor(&mut self.out, y, start);
                let mut last_fg: u8 = 255;
                let mut i = start;
                assert(run_head + cursor_bytes(y as nat, start as nat) + row_bytes(
                    cur,
                    prev,
                    base as int,
                    w as int,
                    y as int,
                    start as int,
                    true,
                    255,
                ) == run_head + row_bytes(
                    cur,
                    prev,
                    base as int,
                    w as int,
                    y as int,
                    start as int,
                    false,
                    0,
                ));
                while i < end
                    invariant
                        w == self.w,
                        h == self.h,
                        !self.full_repaint,
                        self.cur@ == cur,
                        self.prev@ == prev,
                        cur.len() == n,
                        prev.len() == n,
                        base + w <= n,
                        start <= i <= end <= w,
                        forall|j: int| base + start <= j < base + end ==> #[trigger] cur[j] != prev[j],
                        self.out@ + row_bytes(
                            cur,
                            prev,
                            base as int,
                            w as int,
                            y as int,
                            i as int,
                            true,
                            last_fg as int,
                        ) == run_head + cursor_bytes(y as nat, start as nat) + row_bytes(
                            cur,
                            prev,
                            base as int,
                            w as int,
                            y as int,
                            start as int,
                            true,
                            255,
                        ),
                    decreases end - i,
                {
                    let cell = self.cur[base + i];
                    let fg = (cell & 0xff) as u8;
                    let ghost before = self.out@;
                    let ghost old_last = last_fg as int;
                    if fg != last_fg {
                        push_all(&mut self.out, Fg::from_u8(fg).sgr());
                        last_fg = fg;
                    }
                    push_glyph(&mut self.out, (cell >> 8) as u32);
                    proof {
                        assert(self.out@ =~= before + cell_bytes(cell, old_last));
                    }
                    i = i + 1;
                }
                proof {
                    lemma_diff_count_bound(cur, prev, base + start);
                }
                changed = changed + (end - start);
            }
            y = y + 1;
        }
        assert(h * w == w * h) by (nonlinear_arith);
        std::mem::swap(&mut self.cur, &mut self.prev);
        let ghost frame = self.out@;
        let mut k: usize = 0;
        while k < n
            invariant
                w == self.w,
                h == self.h,
                !self.full_repaint,
                self.out@ == frame,
                self.prev@ == cur,
                self.cur@.len() == n,
                k <= n,
                forall|j: int| 0 <= j < k ==> self.cur@[j] == SPACE,
            decreases n - k,
        {
            self.cur.set(k, SPACE);
            k = k + 1;
        }
        assert(self.cur@ =~= Seq::new(n as nat, |i: int| SPACE));
        changed
    }

    /// The bytes of the last presented frame, to be written to the terminal.
    pub fn output(&self) -> (o: &[u8])
        ensures
            o@ == self.frame(),
    {
        self.out.as_slice()
    }
}

} // verus!
