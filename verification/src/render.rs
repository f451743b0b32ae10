//! The statusline itself: powerline-style, Tokyo Night palette.
//! Segments: state -> dir -> branch -> issue -> session task -> model ->
//! context% -> rate limit.
//!
//! What the line shows is decided here from the payload and from plain values
//! that the caller reads off the disk and the clock (`Surroundings`).
use vstd::prelude::*;
use vstd::string::StringSliceAdditionalSpecFns;
use crate::json::{field, Json, Value};
use crate::text::{
    chars_equal, chars_of, contains, contains_chars, digit_end, digit_end_at, dec, extend_chars,
    lowercase, parse_usize, push_decimal, str_eq, string_of, to_lowercase, unsigned_text, lemma_sdec_reads_back,
    sdec,
};
use crate::paths::trimmed_text;

verus! {

// Tokyo Night
pub const BG_DARK: &'static str = "#1a1b26";
pub const STORM: &'static str = "#24283b";
pub const HI: &'static str = "#3b4261";
pub const FG: &'static str = "#c0caf5";
pub const DIM: &'static str = "#565f89";
pub const BLUE: &'static str = "#7aa2f7";
pub const CYAN: &'static str = "#7dcfff";
pub const MAGENTA: &'static str = "#bb9af7";
pub const GREEN: &'static str = "#9ece6a";
pub const YELLOW: &'static str = "#e0af68";
pub const RED: &'static str = "#f7768e";
pub const ORANGE: &'static str = "#ff9e64";

/// The colours of the palette.
pub open spec fn palette(h: Seq<char>) -> bool {
    ||| h == BG_DARK@
    ||| h == STORM@
    ||| h == HI@
    ||| h == FG@
    ||| h == DIM@
    ||| h == BLUE@
    ||| h == CYAN@
    ||| h == MAGENTA@
    ||| h == GREEN@
    ||| h == YELLOW@
    ||| h == RED@
    ||| h == ORANGE@
}

/// Every palette entry is `#rrggbb`: seven bytes.
pub proof fn lemma_palette(h: Seq<char>)
    requires
        palette(h),
    ensures
        vstd::utf8::encode_utf8(h).len() == 7,
{
    broadcast use vstd::string::is_ascii_spec_bytes;

    reveal_strlit("#1a1b26");
    reveal_strlit("#24283b");
    reveal_strlit("#3b4261");
    reveal_strlit("#c0caf5");
    reveal_strlit("#565f89");
    reveal_strlit("#7aa2f7");
    reveal_strlit("#7dcfff");
    reveal_strlit("#bb9af7");
    reveal_strlit("#9ece6a");
    reveal_strlit("#e0af68");
    reveal_strlit("#f7768e");
    reveal_strlit("#ff9e64");
    assert(vstd::string::is_ascii(BG_DARK));
    assert(BG_DARK.spec_bytes().len() == 7);
    assert(vstd::string::is_ascii(STORM));
    assert(STORM.spec_bytes().len() == 7);
    assert(vstd::string::is_ascii(HI));
    assert(HI.spec_bytes().len() == 7);
    assert(vstd::string::is_ascii(FG));
    assert(FG.spec_bytes().len() == 7);
    assert(vstd::string::is_ascii(DIM));
    assert(DIM.spec_bytes().len() == 7);
    assert(vstd::string::is_ascii(BLUE));
    assert(BLUE.spec_bytes().len() == 7);
    assert(vstd::string::is_ascii(CYAN));
    assert(CYAN.spec_bytes().len() == 7);
    assert(vstd::string::is_ascii(MAGENTA));
    assert(MAGENTA.spec_bytes().len() == 7);
    assert(vstd::string::is_ascii(GREEN));
    assert(GREEN.spec_bytes().len() == 7);
    assert(vstd::string::is_ascii(YELLOW));
    assert(YELLOW.spec_bytes().len() == 7);
    assert(vstd::string::is_ascii(RED));
    assert(RED.spec_bytes().len() == 7);
    assert(vstd::string::is_ascii(ORANGE));
    assert(ORANGE.spec_bytes().len() == 7);
}

// ---------------------------------------------------------------------------
// Colours and escape sequences
// ---------------------------------------------------------------------------

/// Value of an ASCII hex digit byte, -1 for any other byte.
pub open spec fn hex_byte(c: u8) -> int {
    if 48 <= c <= 57 {
        c - 48
    } else if 97 <= c <= 102 {
        c - 87
    } else if 65 <= c <= 70 {
        c - 55
    } else {
        -1
    }
}

/// Bytes `b[i..i+2]` read as `u8::from_str_radix(_, 16)` would read them,
/// 0 when that fails (as the byte pair is not UTF-8 or not hex).
pub open spec fn hex_pair(b: Seq<u8>, i: int) -> u8 {
    if hex_byte(b[i]) >= 0 && hex_byte(b[i + 1]) >= 0 {
        (hex_byte(b[i]) * 16 + hex_byte(b[i + 1])) as u8
    } else if b[i] == 43 && hex_byte(b[i + 1]) >= 0 {
        hex_byte(b[i + 1]) as u8
    } else {
        0
    }
}

/// The red, green and blue of `#rrggbb`, given as bytes.
pub open spec fn rgb_of(b: Seq<u8>) -> (u8, u8, u8) {
    (hex_pair(b, 1), hex_pair(b, 3), hex_pair(b, 5))
}

/// The escape sequence that selects a 24-bit colour: layer `3` is the
/// foreground, `4` the background.
pub open spec fn color_code(layer: char, hex: Seq<char>) -> Seq<char> {
    let c = rgb_of(vstd::utf8::encode_utf8(hex));
    seq!['\u{1b}', '[', layer, '8', ';', '2', ';'] + dec(c.0 as nat) + seq![';'] + dec(
        c.1 as nat,
    ) + seq![';'] + dec(c.2 as nat) + seq!['m']
}

fn hex_byte_value(c: u8) -> (r: i32)
    ensures
        r == hex_byte(c),
{
    if 48 <= c && c <= 57 {
        (c - 48) as i32
    } else if 97 <= c && c <= 102 {
        (c - 87) as i32
    } else if 65 <= c && c <= 70 {
        (c - 55) as i32
    } else {
        -1
    }
}

fn hex_pair_at(b: &[u8], i: usize) -> (r: u8)
    requires
        i + 2 <= b@.len(),
    ensures
        r == hex_pair(b@, i as int),
{
    let h = hex_byte_value(b[i]);
    let l = hex_byte_value(b[i + 1]);
    if h >= 0 && l >= 0 {
        (h * 16 + l) as u8
    } else if b[i] == 43 && l >= 0 {
        l as u8
    } else {
        0
    }
}

/// `#rrggbb` to its three components.
pub fn rgb(hex: &str) -> (r: (u8, u8, u8))
    requires
        hex.spec_bytes().len() >= 7,
    ensures
        r == rgb_of(hex.spec_bytes()),
{
    let b = hex.as_bytes();
    (hex_pair_at(b, 1), hex_pair_at(b, 3), hex_pair_at(b, 5))
}

/// Append `color_code(layer, hex)`.
fn push_color(out: &mut Vec<char>, layer: char, hex: &str)
    requires
        hex.spec_bytes().len() >= 7,
    ensures
        final(out)@ == old(out)@ + color_code(layer, hex@),
{
    let (r, g, b) = rgb(hex);
    out.push('\u{1b}');
    out.push('[');
    out.push(layer);
    out.push('8');
    out.push(';');
    out.push('2');
    out.push(';');
    push_decimal(out, r as u64);
    out.push(';');
    push_decimal(out, g as u64);
    out.push(';');
    push_decimal(out, b as u64);
    out.push('m');
    assert(out@ =~= old(out)@ + color_code(layer, hex@));
}

/// The escape sequence for a foreground colour.
pub fn fg(hex: &str) -> (r: String)
    requires
        hex.spec_bytes().len() >= 7,
    ensures
        r@ == color_code('3', hex@),
{
    let mut out: Vec<char> = Vec::new();
    push_color(&mut out, '3', hex);
    assert(out@ =~= color_code('3', hex@));
    string_of(out.as_slice())
}

/// The escape sequence for a background colour.
pub fn bg(hex: &str) -> (r: String)
    requires
        hex.spec_bytes().len() >= 7,
    ensures
        r@ == color_code('4', hex@),
{
    let mut out: Vec<char> = Vec::new();
    push_color(&mut out, '4', hex);
    assert(out@ =~= color_code('4', hex@));
    string_of(out.as_slice())
}

// ---------------------------------------------------------------------------
// Segments and the line
// ---------------------------------------------------------------------------

/// One segment: its text, colours and weight.
pub struct Seg {
    pub text: String,
    pub fg: &'static str,
    pub bg: &'static str,
    pub bold: bool,
}

/// What a segment shows.
pub struct SegView {
    pub text: Seq<char>,
    pub fg: Seq<char>,
    pub bg: Seq<char>,
    pub bold: bool,
}

impl View for Seg {
    type V = SegView;

    open spec fn view(&self) -> SegView {
        SegView { text: self.text@, fg: self.fg@, bg: self.bg@, bold: self.bold }
    }
}

pub open spec fn seg_views(s: Seq<Seg>) -> Seq<SegView> {
    Seq::new(s.len(), |i: int| s[i]@)
}

pub open spec fn reset() -> Seq<char> {
    seq!['\u{1b}', '[', '0', 'm']
}

pub open spec fn sep() -> char {
    '\u{e0b0}'
}

pub open spec fn thin() -> char {
    '\u{e0b1}'
}

/// How segment `i` hands over to the next: a thin chevron between segments
/// on the same background, else an arrow in this segment's colour on the next
/// background (or on the default background after the last).
pub open spec fn joint(segs: Seq<SegView>, i: int) -> Seq<char> {
    let s = segs[i];
    if i + 1 < segs.len() {
        if segs[i + 1].bg == s.bg {
            color_code('3', DIM@) + seq![thin()]
        } else {
            color_code('4', segs[i + 1].bg) + color_code('3', s.bg) + seq![sep()]
        }
    } else {
        seq!['\u{1b}', '[', '4', '9', 'm'] + color_code('3', s.bg) + seq![sep()]
    }
}

/// A segment as printed: background, weight, foreground, padded text, and
/// the weight reset.
pub open spec fn head(s: SegView) -> Seq<char> {
    color_code('4', s.bg) + (if s.bold {
        seq!['\u{1b}', '[', '1', 'm']
    } else {
        Seq::empty()
    }) + color_code('3', s.fg) + seq![' '] + s.text + seq![' ', '\u{1b}', '[', '2', '2', 'm']
}

/// Segment `i` as printed, with the joint after it.
pub open spec fn piece(segs: Seq<SegView>, i: int) -> Seq<char> {
    head(segs[i]) + joint(segs, i)
}

/// Segments `i..` as printed, then the reset.
pub open spec fn line_from(segs: Seq<SegView>, i: int) -> Seq<char>
    decreases segs.len() - i,
{
    if i < 0 || i >= segs.len() {
        reset()
    } else {
        piece(segs, i) + line_from(segs, i + 1)
    }
}

/// The whole line for a list of segments.
pub open spec fn line(segs: Seq<SegView>) -> Seq<char> {
    line_from(segs, 0)
}

/// All colours of the segments are palette colours.
pub open spec fn in_palette(segs: Seq<Seg>) -> bool {
    forall|i: int| 0 <= i < segs.len() ==> palette(#[trigger] segs[i].fg@) && palette(segs[i].bg@)
}

/// Append how segment `i` hands over to the next.
fn push_joint(out: &mut Vec<char>, segs: &Vec<Seg>, i: usize)
    requires
        in_palette(segs@),
        i < segs@.len(),
    ensures
        final(out)@ == old(out)@ + joint(seg_views(segs@), i as int),
{
    let ghost v = seg_views(segs@);
    let n = segs.len();
    let s = &segs[i];
    assert(palette(segs@[i as int].fg@) && palette(segs@[i as int].bg@));
    proof {
        lemma_palette(DIM@);
        lemma_palette(s.bg@);
    }
    if i + 1 < n {
        let next = &segs[i + 1];
        assert(palette(segs@[i + 1].fg@) && palette(segs@[i + 1].bg@));
        proof {
            lemma_palette(next.bg@);
        }
        if str_eq(next.bg, s.bg) {
            push_color(out, '3', DIM);
            out.push('\u{e0b1}');
        } else {
            push_color(out, '4', next.bg);
            push_color(out, '3', s.bg);
            out.push('\u{e0b0}');
        }
    } else {
        out.push('\u{1b}');
        out.push('[');
        out.push('4');
        out.push('9');
        out.push('m');
        push_color(out, '3', s.bg);
        out.push('\u{e0b0}');
    }
    assert(out@ =~= old(out)@ + joint(v, i as int));
}

/// Append `head(s@)`.
fn push_head(out: &mut Vec<char>, s: &Seg)
    requires
        palette(s.fg@),
        palette(s.bg@),
    ensures
        final(out)@ == old(out)@ + head(s@),
{
    proof {
        lemma_palette(s.fg@);
        lemma_palette(s.bg@);
    }
    push_color(out, '4', s.bg);
    let ghost a = out@;
    if s.bold {
        out.push('\u{1b}');
        out.push('[');
        out.push('1');
        out.push('m');
    }
    let ghost b = out@;
    push_color(out, '3', s.fg);
    let ghost c = out@;
    out.push(' ');
    let t = chars_of(s.text.as_str());
    extend_chars(out, t.as_slice());
    let ghost d = out@;
    out.push(' ');
    out.push('\u{1b}');
    out.push('[');
    out.push('2');
    out.push('2');
    out.push('m');
    assert(out@ =~= d + seq![' ', '\u{1b}', '[', '2', '2', 'm']);
    assert(d =~= c + seq![' '] + s.text@);
    assert(b =~= a + (if s.bold {
        seq!['\u{1b}', '[', '1', 'm']
    } else {
        Seq::empty()
    }));
    assert(out@ =~= old(out)@ + head(s@));
}

/// Append segment `i` as printed, with its joint.
fn push_piece(out: &mut Vec<char>, segs: &Vec<Seg>, i: usize)
    requires
        in_palette(segs@),
        i < segs@.len(),
    ensures
        final(out)@ == old(out)@ + piece(seg_views(segs@), i as int),
{
    let ghost v = seg_views(segs@);
    assert(palette(segs@[i as int].fg@) && palette(segs@[i as int].bg@));
    push_head(out, &segs[i]);
    push_joint(out, segs, i);
    assert(v[i as int] == segs@[i as int]@);
    assert(out@ =~= old(out)@ + piece(v, i as int));
}

/// Print the segments as one line.
pub fn assemble(segs: &Vec<Seg>) -> (r: String)
    requires
        in_palette(segs@),
    ensures
        r@ == line(seg_views(segs@)),
{
    let ghost v = seg_views(segs@);
    let mut out: Vec<char> = Vec::new();
    let mut i: usize = 0;
    while i < segs.len()
        invariant
            v == seg_views(segs@),
            in_palette(segs@),
            i <= segs@.len(),
            out@ + line_from(v, i as int) == line(v),
        decreases segs.len() - i,
    {
        let ghost before = out@;
        push_piece(&mut out, segs, i);
        assert(line_from(v, i as int) == piece(v, i as int) + line_from(v, i + 1));
        assert(before + (piece(v, i as int) + line_from(v, i + 1)) =~= out@ + line_from(v, i + 1));
        i = i + 1;
    }
    out.push('\u{1b}');
    out.push('[');
    out.push('0');
    out.push('m');
    assert(out@ =~= line(v));
    string_of(out.as_slice())
}


// ---------------------------------------------------------------------------
// What the line shows
// ---------------------------------------------------------------------------

/// How full the context window is, in the bands the payload's percentage
/// falls into (the caller compares the number: 80 and up is hot, 60 and up
/// warm).
pub enum Heat {
    Calm,
    Warm,
    Hot,
}

/// The context gauge: `steps` is the percentage divided by 20 and rounded,
/// `percent` the percentage as printed.
pub struct Gauge {
    pub steps: i64,
    pub heat: Heat,
    pub percent: String,
}

/// A rate-limit chip that passed its threshold: `label` names the window
/// (`5h`, `7d`), `severe` marks usage past the red line.
pub struct Limit {
    pub label: String,
    pub percent: String,
    pub severe: bool,
}

/// What the renderer reads off the disk and the clock, for the session of the
/// payload: the per-session files are read (trimmed, `None` when missing or
/// empty) only when the payload names a session.
pub struct Surroundings {
    /// Milliseconds since the Unix epoch.
    pub now: i64,
    /// The working directory's last component.
    pub name: String,
    /// The current git branch of the working directory.
    pub branch: Option<String>,
    /// `<id>.txt`: the live task label.
    pub task: Option<String>,
    /// Modification time of `<id>.pending`, in milliseconds.
    pub pending: Option<i64>,
    /// `<id>.spin`: the spinner frame counter.
    pub spin: Option<String>,
    /// `<id>.state`: `working` or `waiting`.
    pub state: Option<String>,
    /// Modification time of `<id>.state`, 0 when unknown.
    pub state_since: i64,
    /// `<id>.issue`: the claimed issue.
    pub issue: Option<String>,
    pub gauge: Option<Gauge>,
    pub limits: Vec<Limit>,
}

pub open spec fn opt_view(o: Option<String>) -> Option<Seq<char>> {
    match o {
        Some(s) => Some(s@),
        None => None,
    }
}

/// The text of a string value, empty for anything else.
pub open spec fn text_or_empty(v: Value) -> Seq<char> {
    match v {
        Value::Str(t) => t,
        _ => Seq::empty(),
    }
}

pub open spec fn waiting_lit() -> Seq<char> {
    seq!['w', 'a', 'i', 't', 'i', 'n', 'g']
}

pub open spec fn working_lit() -> Seq<char> {
    seq!['w', 'o', 'r', 'k', 'i', 'n', 'g']
}

pub open spec fn summarising_lit() -> Seq<char> {
    seq!['s', 'u', 'm', 'm', 'a', 'r', 'i', 's', 'i', 'n', 'g']
}

/// Two-digit, zero-padded.
pub open spec fn two_digits(n: nat) -> Seq<char> {
    if n < 10 {
        seq!['0'] + dec(n)
    } else {
        dec(n)
    }
}

/// How long the pane has been working, from the stint's length in
/// milliseconds: nothing under a minute, ` Nm` under an hour, else ` HhMM`.
pub open spec fn stint(diff: int) -> Seq<char> {
    if diff < 60000 {
        Seq::empty()
    } else {
        let m = diff / 60000;
        if m < 60 {
            seq![' '] + dec(m as nat) + seq!['m']
        } else {
            seq![' '] + dec((m / 60) as nat) + seq!['h'] + two_digits((m % 60) as nat)
        }
    }
}

/// The spinner's frames: a star that grows and shrinks back.
pub open spec fn spin_glyph(n: nat) -> char {
    if n == 0 {
        '\u{2727}'
    } else if n == 1 {
        '\u{2726}'
    } else if n == 2 {
        '\u{2736}'
    } else if n == 3 {
        '\u{273b}'
    } else if n == 4 {
        '\u{273d}'
    } else if n == 5 {
        '\u{273b}'
    } else if n == 6 {
        '\u{2736}'
    } else {
        '\u{2726}'
    }
}

/// The summarizer is at work: the session's `.pending` marker is less than
/// 90 s old.
pub open spec fn is_summarising(sid: Seq<char>, pending: Option<i64>, now: i64) -> bool {
    sid.len() > 0 && match pending {
        Some(m) => now - m < 90000,
        None => false,
    }
}

/// The spinner frame recorded in `.spin` (a number, taken modulo 8; 0 when
/// there is none).
pub open spec fn spin_frame(spin: Option<Seq<char>>) -> nat {
    match spin {
        Some(t) => match unsigned_text(t) {
            Some(v) => if v <= usize::MAX {
                v % 8
            } else {
                0
            },
            None => 0,
        },
        None => 0,
    }
}

/// Cut a text to `max` characters, ending with `…` when it was longer.
pub open spec fn truncated(s: Seq<char>, max: nat) -> Seq<char> {
    if s.len() > max {
        s.take(max - 1).push('\u{2026}')
    } else {
        s
    }
}

/// The chip for a `.issue` text such as `#123 Some title`: `#123`.
pub open spec fn issue_chip(raw: Seq<char>) -> Option<Seq<char>> {
    if raw.len() > 0 && raw[0] == '#' && digit_end(raw, 1) > 1 {
        Some(raw.subrange(0, digit_end(raw, 1)))
    } else {
        None
    }
}

pub open spec fn seg(text: Seq<char>, fg: Seq<char>, bg: Seq<char>, bold: bool) -> SegView {
    SegView { text, fg, bg, bold }
}

pub open spec fn state_segs(state: Option<Seq<char>>, diff: int) -> Seq<SegView> {
    match state {
        Some(t) => if t == waiting_lit() {
            seq![seg(seq!['\u{276f}'], RED@, STORM@, true)]
        } else if t == working_lit() {
            seq![seg(seq!['\u{25cf}'] + stint(diff), GREEN@, STORM@, false)]
        } else {
            Seq::empty()
        },
        None => Seq::empty(),
    }
}

pub open spec fn dir_seg(name: Seq<char>, has_branch: bool) -> SegView {
    seg(
        seq!['\u{2302}', ' '] + name,
        if has_branch {
            BG_DARK@
        } else {
            FG@
        },
        if has_branch {
            BLUE@
        } else {
            HI@
        },
        true,
    )
}

/// The branch, unless the folder name already holds it (ignoring case).
pub open spec fn branch_segs(name: Seq<char>, branch: Option<Seq<char>>) -> Seq<SegView> {
    match branch {
        Some(b) => if !contains(lowercase(name), lowercase(b)) {
            seq![seg(seq![' '] + b, CYAN@, HI@, false)]
        } else {
            Seq::empty()
        },
        None => Seq::empty(),
    }
}

pub open spec fn issue_segs(issue: Option<Seq<char>>) -> Seq<SegView> {
    match issue {
        Some(raw) => match issue_chip(raw) {
            Some(num) => seq![seg(num, ORANGE@, STORM@, false)],
            None => Seq::empty(),
        },
        None => Seq::empty(),
    }
}

pub open spec fn session_segs(name: Seq<char>, summarising: bool, frame: nat) -> Seq<SegView> {
    if name.len() > 0 || summarising {
        let t = truncated(name, 60);
        let glyph = if summarising {
            spin_glyph(frame)
        } else {
            '\u{2726}'
        };
        let label = if t.len() == 0 {
            summarising_lit()
        } else {
            t
        };
        seq![seg(seq![glyph, ' '] + label, MAGENTA@, STORM@, false)]
    } else {
        Seq::empty()
    }
}

pub open spec fn model_segs(model: Seq<char>) -> Seq<SegView> {
    if model.len() > 0 {
        seq![seg(model, DIM@, BG_DARK@, false)]
    } else {
        Seq::empty()
    }
}

pub open spec fn clamp5(steps: i64) -> nat {
    if steps < 0 {
        0
    } else if steps > 5 {
        5
    } else {
        steps as nat
    }
}

/// Five cells, `filled` of them full.
pub open spec fn bar(filled: nat) -> Seq<char> {
    Seq::new(filled, |_i: int| '\u{25b0}') + Seq::new((5 - filled) as nat, |_i: int| '\u{25b1}')
}

pub open spec fn heat_color(h: Heat) -> Seq<char> {
    match h {
        Heat::Calm => GREEN@,
        Heat::Warm => YELLOW@,
        Heat::Hot => RED@,
    }
}

pub open spec fn gauge_segs(g: Option<Gauge>) -> Seq<SegView> {
    match g {
        Some(g) => seq![
            seg(
                bar(clamp5(g.steps)) + seq![' '] + g.percent@ + seq!['%'],
                heat_color(g.heat),
                BG_DARK@,
                false,
            ),
        ],
        None => Seq::empty(),
    }
}

pub open spec fn limit_seg(l: Limit) -> SegView {
    seg(
        seq!['\u{29d6}', ' '] + l.label@ + seq![' '] + l.percent@ + seq!['%'],
        if l.severe {
            RED@
        } else {
            ORANGE@
        },
        BG_DARK@,
        false,
    )
}

pub open spec fn limit_segs(ls: Seq<Limit>) -> Seq<SegView> {
    Seq::new(ls.len(), |i: int| limit_seg(ls[i]))
}

/// The segments of the line for a payload and its surroundings, in order.
pub open spec fn segments_of(input: Value, f: Surroundings) -> Seq<SegView> {
    let sid = text_or_empty(field(input, "session_id"@));
    let model = text_or_empty(field(field(input, "model"@), "display_name"@));
    let task = if sid.len() == 0 {
        None
    } else {
        opt_view(f.task)
    };
    let session_name = match task {
        Some(t) => t,
        None => text_or_empty(field(input, "session_name"@)),
    };
    let summarising = is_summarising(sid, f.pending, f.now);
    let state = if sid.len() == 0 {
        None
    } else {
        opt_view(f.state)
    };
    let since: int = if sid.len() == 0 {
        0
    } else {
        f.state_since as int
    };
    let issue = if sid.len() == 0 {
        None
    } else {
        opt_view(f.issue)
    };
    state_segs(state, f.now - since) + seq![dir_seg(f.name@, f.branch is Some)] + branch_segs(
        f.name@,
        opt_view(f.branch),
    ) + issue_segs(issue) + session_segs(session_name, summarising, spin_frame(opt_view(f.spin)))
        + model_segs(model) + gauge_segs(f.gauge) + limit_segs(f.limits@)
}

/// The arithmetic the renderer does on times stays in range.
pub open spec fn times_in_range(input: Value, f: Surroundings) -> bool {
    let sid = text_or_empty(field(input, "session_id"@));
    &&& (sid.len() > 0 && f.pending is Some) ==> i64::MIN <= f.now - f.pending->0 <= i64::MAX
    &&& (sid.len() > 0 && opt_view(f.state) == Some(working_lit())) ==> i64::MIN <= f.now
        - f.state_since <= i64::MAX
}

/// `text_or_empty` of a string value, computed.
fn text_of(j: &Json) -> (r: String)
    ensures
        r@ == text_or_empty(j@),
{
    match j.as_str() {
        Some(t) => String::from_str(t),
        None => String::new(),
    }
}

/// Whether the summarizer is at work for this session.
pub fn summarising(session_id: &str, pending: Option<i64>, now: i64) -> (r: bool)
    requires
        session_id@.len() > 0 && pending is Some ==> i64::MIN <= now - pending->0 <= i64::MAX,
    ensures
        r == is_summarising(session_id@, pending, now),
{
    if session_id.is_empty() {
        return false;
    }
    match pending {
        Some(m) => now - m < 90000,
        None => false,
    }
}

/// The spinner frame to show, from the `.spin` counter; the next render
/// shows `(frame + 1) % 8`.
pub fn spinner_frame(spin: &Option<String>) -> (r: usize)
    ensures
        r == spin_frame(opt_view(*spin)),
        r < 8,
{
    match spin {
        Some(t) => match parse_usize(t.as_str()) {
            Some(v) => v % 8,
            None => 0,
        },
        None => 0,
    }
}

/// The counter written back after showing `frame`: the next frame,
/// `(frame + 1) % 8`, in decimal.
pub fn next_spin(frame: usize) -> (r: String)
    ensures
        r@ == dec(((frame + 1) % 8) as nat),
{
    let next = (frame % 8 + 1) % 8;
    assert(next == (frame + 1) % 8) by (nonlinear_arith)
        requires
            next == (frame % 8 + 1) % 8,
    ;
    let mut out: Vec<char> = Vec::new();
    push_decimal(&mut out, next as u64);
    assert(out@ =~= dec(next as nat));
    string_of(out.as_slice())
}

fn spin_char(n: usize) -> (r: char)
    requires
        n < 8,
    ensures
        r == spin_glyph(n as nat),
{
    if n == 0 {
        '\u{2727}'
    } else if n == 1 {
        '\u{2726}'
    } else if n == 2 {
        '\u{2736}'
    } else if n == 3 {
        '\u{273b}'
    } else if n == 4 {
        '\u{273d}'
    } else if n == 5 {
        '\u{273b}'
    } else if n == 6 {
        '\u{2736}'
    } else {
        '\u{2726}'
    }
}

/// Cut `s` to `max` characters, counting characters, not bytes.
pub fn truncate_chars(s: &str, max: usize) -> (r: String)
    requires
        s@.len() > max ==> max >= 1,
    ensures
        r@ == truncated(s@, max as nat),
{
    let c = chars_of(s);
    if c.len() > max {
        let mut t = copy_prefix(c.as_slice(), max - 1);
        t.push('\u{2026}');
        string_of(t.as_slice())
    } else {
        string_of(c.as_slice())
    }
}

fn copy_prefix(v: &[char], n: usize) -> (r: Vec<char>)
    requires
        n <= v@.len(),
    ensures
        r@ == v@.take(n as int),
{
    let r = crate::text::copy_range(v, 0, n);
    assert(v@.subrange(0, n as int) =~= v@.take(n as int));
    r
}

/// The `.issue` file holds `#123 Some title`; only the number goes in the
/// chip.
pub fn leading_issue_number(raw: &str) -> (r: Option<String>)
    ensures
        r matches Some(t) ==> issue_chip(raw@) == Some(t@),
        r is None ==> issue_chip(raw@) is None,
{
    let c = chars_of(raw);
    if c.len() == 0 || c[0] != '#' {
        return None;
    }
    let e = digit_end_at(c.as_slice(), 1);
    if e == 1 {
        return None;
    }
    Some(string_of(copy_prefix(c.as_slice(), e).as_slice()))
}


proof fn lemma_seg_views_append(a: Seq<Seg>, b: Seq<Seg>)
    ensures
        seg_views(a + b) == seg_views(a) + seg_views(b),
        in_palette(a) && in_palette(b) ==> in_palette(a + b),
{
    assert(seg_views(a + b) =~= seg_views(a) + seg_views(b));
    if in_palette(a) && in_palette(b) {
        assert forall|i: int| 0 <= i < (a + b).len() implies palette(#[trigger] (a + b)[i].fg@)
            && palette((a + b)[i].bg@) by {
            if i < a.len() {
                assert((a + b)[i] == a[i]);
            } else {
                assert((a + b)[i] == b[i - a.len()]);
            }
        }
    }
}

/// Append `more` to `segs`.
fn push_segs(segs: &mut Vec<Seg>, more: Vec<Seg>)
    requires
        in_palette(old(segs)@),
        in_palette(more@),
    ensures
        in_palette(final(segs)@),
        seg_views(final(segs)@) == seg_views(old(segs)@) + seg_views(more@),
{
    let mut more = more;
    proof {
        lemma_seg_views_append(segs@, more@);
    }
    segs.append(&mut more);
}

fn one(text: String, fg: &'static str, bg: &'static str, bold: bool) -> (r: Vec<Seg>)
    requires
        palette(fg@),
        palette(bg@),
    ensures
        in_palette(r@),
        seg_views(r@) == seq![seg(text@, fg@, bg@, bold)],
{
    let r = vec![Seg { text, fg, bg, bold }];
    assert(seg_views(r@) =~= seq![seg(text@, fg@, bg@, bold)]);
    r
}

fn none() -> (r: Vec<Seg>)
    ensures
        in_palette(r@),
        seg_views(r@) == Seq::<SegView>::empty(),
{
    let r: Vec<Seg> = Vec::new();
    assert(seg_views(r@) =~= Seq::<SegView>::empty());
    r
}

/// `stint(now - since)`, as characters.
fn stint_text(now: i64, since: i64) -> (r: Vec<char>)
    requires
        i64::MIN <= now - since <= i64::MAX,
    ensures
        r@ == stint(now - since),
{
    let diff = now - since;
    let mut out: Vec<char> = Vec::new();
    if diff < 60000 {
        return out;
    }
    let m = (diff as u64) / 60000;
    assert(m == (now - since) / 60000);
    out.push(' ');
    if m < 60 {
        push_decimal(&mut out, m);
        out.push('m');
        assert(out@ =~= stint(now - since));
    } else {
        push_decimal(&mut out, m / 60);
        out.push('h');
        let ghost o = out@;
        let mm = m % 60;
        if mm < 10 {
            out.push('0');
        }
        push_decimal(&mut out, mm);
        assert(out@ =~= o + two_digits(mm as nat));
        assert(out@ =~= stint(now - since));
    }
    out
}

fn state_seg_list(sid_empty: bool, f: &Surroundings) -> (r: Vec<Seg>)
    requires
        (!sid_empty && opt_view(f.state) == Some(working_lit())) ==> i64::MIN <= f.now
            - f.state_since <= i64::MAX,
    ensures
        in_palette(r@),
        seg_views(r@) == state_segs(
            if sid_empty {
                None
            } else {
                opt_view(f.state)
            },
            f.now - (if sid_empty {
                0
            } else {
                f.state_since as int
            }),
        ),
{
    if sid_empty {
        return none();
    }
    match &f.state {
        Some(st) => {
            let c = chars_of(st.as_str());
            let waiting = vec!['w', 'a', 'i', 't', 'i', 'n', 'g'];
            let working = vec!['w', 'o', 'r', 'k', 'i', 'n', 'g'];
            assert(waiting@ =~= waiting_lit());
            assert(working@ =~= working_lit());
            if chars_equal(c.as_slice(), waiting.as_slice()) {
                let t = vec!['\u{276f}'];
                assert(t@ =~= seq!['\u{276f}']);
                one(string_of(t.as_slice()), RED, STORM, true)
            } else if chars_equal(c.as_slice(), working.as_slice()) {
                let mut t = vec!['\u{25cf}'];
                let d = stint_text(f.now, f.state_since);
                extend_chars(&mut t, d.as_slice());
                assert(t@ =~= seq!['\u{25cf}'] + stint(f.now - f.state_since));
                one(string_of(t.as_slice()), GREEN, STORM, false)
            } else {
                none()
            }
        },
        None => none(),
    }
}

fn dir_seg_list(f: &Surroundings) -> (r: Vec<Seg>)
    ensures
        in_palette(r@),
        seg_views(r@) == seq![dir_seg(f.name@, f.branch is Some)],
{
    let mut t = vec!['\u{2302}', ' '];
    let n = chars_of(f.name.as_str());
    extend_chars(&mut t, n.as_slice());
    assert(t@ =~= seq!['\u{2302}', ' '] + f.name@);
    if f.branch.is_some() {
        one(string_of(t.as_slice()), BG_DARK, BLUE, true)
    } else {
        one(string_of(t.as_slice()), FG, HI, true)
    }
}

fn branch_seg_list(f: &Surroundings) -> (r: Vec<Seg>)
    ensures
        in_palette(r@),
        seg_views(r@) == branch_segs(f.name@, opt_view(f.branch)),
{
    match &f.branch {
        Some(b) => {
            let ln = to_lowercase(f.name.as_str());
            let lb = to_lowercase(b.as_str());
            let cn = chars_of(ln.as_str());
            let cb = chars_of(lb.as_str());
            if !contains_chars(cn.as_slice(), cb.as_slice()) {
                let mut t = vec![' '];
                let bc = chars_of(b.as_str());
                extend_chars(&mut t, bc.as_slice());
                assert(t@ =~= seq![' '] + b@);
                one(string_of(t.as_slice()), CYAN, HI, false)
            } else {
                none()
            }
        },
        None => none(),
    }
}

fn issue_seg_list(sid_empty: bool, f: &Surroundings) -> (r: Vec<Seg>)
    ensures
        in_palette(r@),
        seg_views(r@) == issue_segs(
            if sid_empty {
                None
            } else {
                opt_view(f.issue)
            },
        ),
{
    if sid_empty {
        return none();
    }
    match &f.issue {
        Some(raw) => match leading_issue_number(raw.as_str()) {
            Some(num) => one(num, ORANGE, STORM, false),
            None => none(),
        },
        None => none(),
    }
}

fn session_seg_list(name: &String, summarising: bool, frame: usize) -> (r: Vec<Seg>)
    requires
        frame < 8,
    ensures
        in_palette(r@),
        seg_views(r@) == session_segs(name@, summarising, frame as nat),
{
    if name.as_str().is_empty() && !summarising {
        return none();
    }
    let t = truncate_chars(name.as_str(), 60);
    let glyph = if summarising {
        spin_char(frame)
    } else {
        '\u{2726}'
    };
    let mut text = vec![glyph, ' '];
    if t.as_str().is_empty() {
        let lit = vec!['s', 'u', 'm', 'm', 'a', 'r', 'i', 's', 'i', 'n', 'g'];
        assert(lit@ =~= summarising_lit());
        extend_chars(&mut text, lit.as_slice());
    } else {
        let tc = chars_of(t.as_str());
        extend_chars(&mut text, tc.as_slice());
    }
    assert(text@ =~= seq![glyph, ' '] + (if t@.len() == 0 {
        summarising_lit()
    } else {
        t@
    }));
    one(string_of(text.as_slice()), MAGENTA, STORM, false)
}

fn model_seg_list(model: String) -> (r: Vec<Seg>)
    ensures
        in_palette(r@),
        seg_views(r@) == model_segs(model@),
{
    if model.as_str().is_empty() {
        none()
    } else {
        one(model, DIM, BG_DARK, false)
    }
}

fn heat_hex(h: &Heat) -> (r: &'static str)
    ensures
        r@ == heat_color(*h),
        palette(r@),
{
    match h {
        Heat::Calm => GREEN,
        Heat::Warm => YELLOW,
        Heat::Hot => RED,
    }
}

fn gauge_seg_list(g: &Option<Gauge>) -> (r: Vec<Seg>)
    ensures
        in_palette(r@),
        seg_views(r@) == gauge_segs(*g),
{
    match g {
        Some(g) => {
            let filled: usize = if g.steps < 0 {
                0
            } else if g.steps > 5 {
                5
            } else {
                g.steps as usize
            };
            let mut t: Vec<char> = Vec::new();
            let mut k: usize = 0;
            while k < 5
                invariant
                    filled == clamp5(g.steps),
                    filled <= 5,
                    k <= 5,
                    t@ =~= bar(filled as nat).take(k as int),
                decreases 5 - k,
            {
                if k < filled {
                    t.push('\u{25b0}');
                } else {
                    t.push('\u{25b1}');
                }
                k = k + 1;
                assert(t@ =~= bar(filled as nat).take(k as int));
            }
            assert(bar(filled as nat).take(5) =~= bar(filled as nat));
            t.push(' ');
            let p = chars_of(g.percent.as_str());
            extend_chars(&mut t, p.as_slice());
            t.push('%');
            assert(t@ =~= bar(clamp5(g.steps)) + seq![' '] + g.percent@ + seq!['%']);
            one(string_of(t.as_slice()), heat_hex(&g.heat), BG_DARK, false)
        },
        None => none(),
    }
}

fn limit_seg_list(ls: &Vec<Limit>) -> (r: Vec<Seg>)
    ensures
        in_palette(r@),
        seg_views(r@) == limit_segs(ls@),
{
    let mut r: Vec<Seg> = Vec::new();
    let mut i: usize = 0;
    while i < ls.len()
        invariant
            i <= ls@.len(),
            in_palette(r@),
            seg_views(r@) =~= limit_segs(ls@).take(i as int),
        decreases ls.len() - i,
    {
        let l = &ls[i];
        let mut t = vec!['\u{29d6}', ' '];
        let lc = chars_of(l.label.as_str());
        extend_chars(&mut t, lc.as_slice());
        t.push(' ');
        let pc = chars_of(l.percent.as_str());
        extend_chars(&mut t, pc.as_slice());
        t.push('%');
        assert(t@ =~= seq!['\u{29d6}', ' '] + l.label@ + seq![' '] + l.percent@ + seq!['%']);
        let one_seg = one(string_of(t.as_slice()), if l.severe {
            RED
        } else {
            ORANGE
        }, BG_DARK, false);
        push_segs(&mut r, one_seg);
        i = i + 1;
        assert(seg_views(r@) =~= limit_segs(ls@).take(i as int));
    }
    assert(limit_segs(ls@).take(i as int) =~= limit_segs(ls@));
    r
}

/// The segments of the line, in order.
pub fn segments(input: &Json, f: &Surroundings) -> (r: Vec<Seg>)
    requires
        times_in_range(input@, *f),
    ensures
        in_palette(r@),
        seg_views(r@) == segments_of(input@, *f),
{
    let sid = text_of(input.get("session_id"));
    let model = text_of(input.get("model").get("display_name"));
    let sid_empty = sid.as_str().is_empty();
    let session_name: String = match (if sid_empty {
        &None
    } else {
        &f.task
    }) {
        Some(t) => t.clone(),
        None => text_of(input.get("session_name")),
    };
    let summ = summarising(sid.as_str(), f.pending, f.now);
    let frame = spinner_frame(&f.spin);
    let mut segs = state_seg_list(sid_empty, f);
    push_segs(&mut segs, dir_seg_list(f));
    push_segs(&mut segs, branch_seg_list(f));
    push_segs(&mut segs, issue_seg_list(sid_empty, f));
    push_segs(&mut segs, session_seg_list(&session_name, summ, frame));
    push_segs(&mut segs, model_seg_list(model));
    push_segs(&mut segs, gauge_seg_list(&f.gauge));
    push_segs(&mut segs, limit_seg_list(&f.limits));
    segs
}

/// The folder the payload names: `workspace.current_dir`, else `cwd`.
pub open spec fn payload_dir_of(v: Value) -> Option<Seq<char>> {
    match field(field(v, "workspace"@), "current_dir"@) {
        Value::Str(t) => Some(t),
        _ => match field(v, "cwd"@) {
            Value::Str(t) => Some(t),
            _ => None,
        },
    }
}

/// The folder to show, as the payload names it (`None`: the caller falls
/// back to the process's own working directory).
pub fn payload_dir(input: &Json) -> (r: Option<String>)
    ensures
        opt_view(r) == payload_dir_of(input@),
{
    match input.get("workspace").get("current_dir").as_str() {
        Some(t) => Some(String::from_str(t)),
        None => match input.get("cwd").as_str() {
            Some(t) => Some(String::from_str(t)),
            None => None,
        },
    }
}

/// The statusline for a payload and its surroundings.
pub fn render(input: &Json, f: &Surroundings) -> (r: String)
    requires
        times_in_range(input@, *f),
    ensures
        r@ == line(segments_of(input@, *f)),
{
    let segs = segments(input, f);
    assemble(&segs)
}


// ---------------------------------------------------------------------------
// Laws
// ---------------------------------------------------------------------------

/// The spinner always advances: the counter written after showing `frame`
/// is read back by the next render, through the trimmed file text, as the
/// next frame.
pub proof fn spinner_always_advances(frame: nat)
    ensures
        spin_frame(trimmed_text(dec((frame + 1) % 8))) == (frame + 1) % 8,
{
    let v: nat = (frame + 1) % 8;
    lemma_sdec_reads_back(v as int);
    assert(sdec(v as int) == dec(v));
    crate::text::lemma_dec_digits(v);
    assert(trimmed_text(dec(v)) == Some(dec(v)));
}

proof fn lemma_line_from_reset(segs: Seq<SegView>, i: int)
    requires
        0 <= i,
    ensures
        line_from(segs, i).len() >= 4,
        line_from(segs, i).skip(line_from(segs, i).len() - 4) == reset(),
    decreases segs.len() - i,
{
    let l = line_from(segs, i);
    if i >= segs.len() {
        assert(l.skip(0) =~= reset());
    } else {
        lemma_line_from_reset(segs, i + 1);
        let t = line_from(segs, i + 1);
        assert(l == piece(segs, i) + t);
        assert(l.skip(l.len() - 4) =~= t.skip(t.len() - 4));
    }
}

/// Every line ends by resetting all attributes, whatever it shows.
pub proof fn line_always_ends_with_reset(segs: Seq<SegView>)
    ensures
        line(segs).len() >= 4,
        line(segs).skip(line(segs).len() - 4) == reset(),
{
    lemma_line_from_reset(segs, 0);
}

/// Every line shows the folder chip (`⌂ name`), whatever the payload holds,
/// an empty one included.
pub proof fn line_always_shows_the_folder(input: Value, f: Surroundings)
    ensures
        exists|k: int|
            0 <= k < segments_of(input, f).len() && #[trigger] segments_of(input, f)[k] == dir_seg(
                f.name@,
                f.branch is Some,
            ),
{
    let sid = text_or_empty(field(input, "session_id"@));
    let state = if sid.len() == 0 {
        None
    } else {
        opt_view(f.state)
    };
    let since: int = if sid.len() == 0 {
        0
    } else {
        f.state_since as int
    };
    let k = state_segs(state, f.now - since).len() as int;
    assert(segments_of(input, f)[k] == dir_seg(f.name@, f.branch is Some));
}

/// The context bar always has five cells: as many full ones as the rounded
/// fifth of the percentage, held between 0 and 5, and empty ones after them.
pub proof fn gauge_bar_has_five_cells(steps: i64)
    ensures
        bar(clamp5(steps)).len() == 5,
        forall|k: int|
            0 <= k < 5 ==> #[trigger] bar(clamp5(steps))[k] == if k < clamp5(steps) {
                '\u{25b0}'
            } else {
                '\u{25b1}'
            },
        steps <= 0 ==> clamp5(steps) == 0,
        steps >= 5 ==> clamp5(steps) == 5,
        0 <= steps <= 5 ==> clamp5(steps) == steps,
{
}

/// A title is cut to `max` characters, counting characters: longer ones keep
/// `max - 1` of theirs and end in `…`, others stay as they are.
pub proof fn truncation_keeps_the_width(s: Seq<char>, max: nat)
    requires
        max >= 1,
    ensures
        truncated(s, max).len() == if s.len() > max {
            max
        } else {
            s.len()
        },
        s.len() > max ==> truncated(s, max).last() == '\u{2026}' && truncated(s, max).take(
            max - 1,
        ) == s.take(max - 1),
        s.len() <= max ==> truncated(s, max) == s,
{
    if s.len() > max {
        assert(truncated(s, max).take(max - 1) =~= s.take(max - 1));
    }
}


/// How long the pane has worked reads as whole minutes and hours: nothing
/// under a minute; ` <m>m` for `m` whole minutes under an hour; and
/// ` <h>h<mm>` (minutes zero-padded to two digits) for `h * 60 + mm` whole
/// minutes with `mm < 60` once an hour has passed. Nothing is rounded up.
pub proof fn stint_counts_whole_minutes_and_hours(diff: int, h: nat, mm: nat)
    ensures
        diff < 60000 ==> stint(diff) == Seq::<char>::empty(),
        (60000 <= diff && diff / 60000 < 60) ==> stint(diff) == seq![' '] + dec((diff / 60000) as nat)
            + seq!['m'],
        (mm < 60 && h >= 1 && diff / 60000 == h * 60 + mm) ==> stint(diff) == seq![' '] + dec(h)
            + seq!['h', ((mm / 10) + 48) as char, ((mm % 10) + 48) as char],
{
    if mm < 60 && h >= 1 && diff / 60000 == h * 60 + mm {
        let m = diff / 60000;
        assert(m >= 60);
        assert(diff >= 60000) by (nonlinear_arith)
            requires
                m == diff / 60000,
                m >= 60,
        ;
        assert(m / 60 == h && m % 60 == mm) by (nonlinear_arith)
            requires
                m == h * 60 + mm,
                mm < 60,
        ;
        if mm < 10 {
            assert(dec(mm) == seq![((mm + 48) as char)]);
            assert(two_digits(mm) =~= seq![((mm / 10) + 48) as char, ((mm % 10) + 48) as char]);
        } else {
            assert(mm / 10 < 10);
            assert(dec(mm) == dec(mm / 10).push(((mm % 10) + 48) as char));
            assert(dec(mm / 10) == seq![((mm / 10 + 48) as char)]);
            assert(two_digits(mm) =~= seq![((mm / 10) + 48) as char, ((mm % 10) + 48) as char]);
        }
        assert(stint(diff) =~= seq![' '] + dec(h) + seq!['h', ((mm / 10) + 48) as char, ((mm % 10) + 48) as char]);
    }
}


/// The issue chip is `#` and the digits right after it, however the text
/// goes on; a text that does not start with `#` and a digit has no chip.
pub proof fn chip_is_the_hash_and_its_digits(d: Seq<char>, rest: Seq<char>)
    requires
        d.len() > 0,
        forall|k: int| 0 <= k < d.len() ==> crate::text::is_ascii_digit(#[trigger] d[k]),
        rest.len() > 0 ==> !crate::text::is_ascii_digit(rest[0]),
    ensures
        issue_chip(seq!['#'] + d + rest) == Some(seq!['#'] + d),
        issue_chip(d + rest) is None,
{
    let t = seq!['#'] + d + rest;
    assert forall|k: int| 1 <= k < 1 + d.len() implies crate::text::is_ascii_digit(#[trigger] t[k]) by {
        assert(t[k] == d[k - 1]);
    }
    if rest.len() > 0 {
        assert(t[1 + d.len() as int] == rest[0]);
    }
    crate::text::lemma_digit_end_at(t, 1, 1 + d.len() as int);
    assert(t.subrange(0, 1 + d.len() as int) =~= seq!['#'] + d);
    assert((d + rest)[0] == d[0]);
}

} // verus!
