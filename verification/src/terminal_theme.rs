//! Host terminal colors: parsing OSC 10/11/4 replies and building OSC requests.
use vstd::prelude::*;
use vstd::string::*;

use crate::text;

verus! {

#[derive(Debug, Clone, Copy, PartialEq, Eq, Structural)]
pub struct RgbColor {
    pub r: u8,
    pub g: u8,
    pub b: u8,
}

impl Default for RgbColor {
    fn default() -> (c: Self)
        ensures
            c == (RgbColor { r: 0, g: 0, b: 0 }),
    {
        RgbColor { r: 0, g: 0, b: 0 }
    }
}

#[derive(Debug, Clone, Copy, PartialEq, Eq, Structural)]
pub enum HostAppearance {
    Dark,
    Light,
}

/// Perceived brightness of a color, in thousandths (ITU-R BT.601 weights).
pub open spec fn luminance(c: RgbColor) -> nat {
    (c.r as nat) * 299 + (c.g as nat) * 587 + (c.b as nat) * 114
}

impl RgbColor {
    /// A background this bright suggests a light theme.
    pub fn inferred_appearance(self) -> (a: HostAppearance)
        ensures
            a == (if luminance(self) >= 128_000 {
                HostAppearance::Light
            } else {
                HostAppearance::Dark
            }),
    {
        let luminance = (self.r as u32) * 299 + (self.g as u32) * 587 + (self.b as u32) * 114;
        if luminance >= 128_000 {
            HostAppearance::Light
        } else {
            HostAppearance::Dark
        }
    }
}

#[derive(Debug, Clone, Copy, PartialEq, Eq, Structural)]
pub struct TerminalTheme {
    pub foreground: Option<RgbColor>,
    pub background: Option<RgbColor>,
}

impl Default for TerminalTheme {
    fn default() -> (t: Self)
        ensures
            t == (TerminalTheme { foreground: None, background: None }),
    {
        TerminalTheme { foreground: None, background: None }
    }
}

/// Number of ANSI palette entries (0..16) queried from the host terminal
/// so that indexed colors can be resolved to real RGB (e.g. when dimming panes).
pub const HOST_ANSI_PALETTE_LEN: usize = 16;

/// The host terminal's 16 ANSI palette colors, as reported via OSC 4.
pub type AnsiPalette = [Option<RgbColor>; HOST_ANSI_PALETTE_LEN];

#[derive(Debug, Clone, Copy, PartialEq, Eq, Structural)]
pub enum DefaultColorKind {
    Foreground,
    Background,
}

pub const HOST_COLOR_QUERY_SEQUENCE: &'static str = "\x1b]10;?\x1b\\\x1b]11;?\x1b\\";

pub const HOST_COLOR_SCHEME_REPORT_ENABLE_SEQUENCE: &'static str = "\x1b[?2031h";

pub const HOST_COLOR_SCHEME_REPORT_DISABLE_SEQUENCE: &'static str = "\x1b[?2031l";

impl TerminalTheme {
    /// The theme with the given default color set.
    pub fn with_color(self, kind: DefaultColorKind, color: RgbColor) -> (t: Self)
        ensures
            t == (match kind {
                DefaultColorKind::Foreground => TerminalTheme { foreground: Some(color), ..self },
                DefaultColorKind::Background => TerminalTheme { background: Some(color), ..self },
            }),
    {
        let mut theme = self;
        match kind {
            DefaultColorKind::Foreground => theme.foreground = Some(color),
            DefaultColorKind::Background => theme.background = Some(color),
        }
        theme
    }

    /// No default color is known.
    pub fn is_empty(self) -> (r: bool)
        ensures
            r == (self.foreground is None && self.background is None),
    {
        self.foreground.is_none() && self.background.is_none()
    }
}


/// `16^len - 1`, the largest value of `len` hexadecimal digits (for `len` in `1..=4`).
pub open spec fn hex_max(len: nat) -> nat {
    if len == 1 {
        15
    } else if len == 2 {
        255
    } else if len == 3 {
        4095
    } else {
        65535
    }
}

/// A component of `len` hex digits with value `value`, scaled to `0..=255` with rounding.
pub open spec fn scale_component(value: nat, len: nat) -> nat {
    (value * 255 + hex_max(len) / 2) / hex_max(len)
}

/// The 8-bit channel a color component of one to four hex digits denotes.
pub open spec fn spec_hex_component(s: Seq<char>) -> Option<u8> {
    if 1 <= s.len() <= 4 && text::all_hex(s) {
        Some(scale_component(text::hex_value(s), s.len()) as u8)
    } else {
        None
    }
}

proof fn lemma_hex_value_bound(s: Seq<char>)
    requires
        text::all_hex(s),
    ensures
        s.len() == 1 ==> text::hex_value(s) <= 15,
        s.len() == 2 ==> text::hex_value(s) <= 255,
        s.len() == 3 ==> text::hex_value(s) <= 4095,
        s.len() == 4 ==> text::hex_value(s) <= 65535,
    decreases s.len(),
{
    if s.len() > 0 {
        assert(text::is_hex_digit(s[s.len() - 1]));
        assert(text::all_hex(s.drop_last()));
        assert(text::hex_digit_value(s.last()) < 16);
        lemma_hex_value_bound(s.drop_last());
        if s.len() == 1 {
            assert(text::hex_value(s.drop_last()) == 0);
        }
    }
}

proof fn lemma_scale_bound(value: nat, len: nat)
    requires
        1 <= len <= 4,
        value <= hex_max(len),
    ensures
        scale_component(value, len) <= 255,
{
    let m = hex_max(len);
    assert(m >= 15);
    assert(value * 255 <= m * 255) by (nonlinear_arith)
        requires
            value <= m,
    ;
    assert((value * 255 + m / 2) / m <= 255) by (nonlinear_arith)
        requires
            value * 255 <= m * 255,
            m >= 15,
    ;
}

/// Scales a one-to-four digit hex color component to eight bits.
pub fn parse_hex_component(component: &str) -> (r: Option<u8>)
    ensures
        r == spec_hex_component(component@),
{
    let len = component.unicode_len();
    if len == 0 || len > 4 {
        return None;
    }
    let mut value: u32 = 0;
    let mut i: usize = 0;
    while i < len
        invariant
            len == component@.len(),
            1 <= len <= 4,
            i <= len,
            text::all_hex(component@.take(i as int)),
            value == text::hex_value(component@.take(i as int)),
            value < 65536,
            i <= 1 ==> value < 16,
            i <= 2 ==> value < 256,
            i <= 3 ==> value < 4096,
        decreases len - i,
    {
        let c = component.get_char(i);
        if !text::char_is_hex_digit(c) {
            assert(!text::all_hex(component@));
            return None;
        }
        let d = text::hex_digit_to_u32(c);
        proof {
            let t = component@.take(i + 1);
            assert(t.drop_last() =~= component@.take(i as int));
            assert(t.last() == c);
        }
        value = value * 16 + d;
        i = i + 1;
    }
    assert(component@.take(len as int) =~= component@);
    let max: u32 = if len == 1 {
        15
    } else if len == 2 {
        255
    } else if len == 3 {
        4095
    } else {
        65535
    };
    proof {
        lemma_hex_value_bound(component@);
        lemma_scale_bound(value as nat, len as nat);
    }
    let scaled = (value * 255 + max / 2) / max;
    Some(scaled as u8)
}


/// The byte length of `c` in UTF-8.
pub open spec fn utf8_len(c: char) -> nat {
    if (c as u32) < 0x80 {
        1
    } else if (c as u32) < 0x800 {
        2
    } else if (c as u32) < 0x10000 {
        3
    } else {
        4
    }
}

/// The byte length of `s` in UTF-8.
pub open spec fn utf8_seq_len(s: Seq<char>) -> nat
    decreases s.len(),
{
    if s.len() == 0 {
        0
    } else {
        utf8_seq_len(s.drop_last()) + utf8_len(s.last())
    }
}

/// Byte offset `k` of the UTF-8 encoding of `s` falls between two characters.
pub open spec fn is_char_boundary_at(s: Seq<char>, k: nat) -> bool {
    exists|i: int| 0 <= i <= s.len() && utf8_seq_len(#[trigger] s.take(i)) == k
}

pub open spec fn is_ascii_char(c: char) -> bool {
    (c as u32) < 0x80
}

pub open spec fn all_ascii(s: Seq<char>) -> bool {
    forall|i: int| 0 <= i < s.len() ==> is_ascii_char(#[trigger] s[i])
}

/// The digits after `#` are cut into three equal runs of `d` bytes, red first: slicing
/// panics when the cut at `d` falls inside a character, or when red is a valid component
/// (so the green run is sliced next) and the cut at `2d` falls inside a character.
pub open spec fn hash_color_slicing_panics(hex: Seq<char>) -> bool {
    let n = utf8_seq_len(hex);
    let d = n / 3;
    &&& 1 <= d <= 4
    &&& n == d * 3
    &&& (!is_char_boundary_at(hex, d) || (d <= hex.len() && spec_hex_component(
        hex.take(d as int),
    ) is Some && !is_char_boundary_at(hex, 2 * d)))
}

pub open spec fn rgb_prefix() -> Seq<char> {
    seq!['r', 'g', 'b', ':']
}

/// Splits `rest` at its two `/` separators; there must be exactly two.
pub open spec fn spec_rgb_parts(rest: Seq<char>) -> Option<(Seq<char>, Seq<char>, Seq<char>)> {
    match text::first_index_of(rest, '/') {
        None => None,
        Some(i) => {
            let after = rest.skip(i + 1);
            match text::first_index_of(after, '/') {
                None => None,
                Some(j) => {
                    let last = after.skip(j + 1);
                    if text::first_index_of(last, '/') is None {
                        Some((rest.take(i), after.take(j), last))
                    } else {
                        None
                    }
                },
            }
        },
    }
}

/// The color of three components, when each is a valid hex component.
pub open spec fn spec_color_of(a: Seq<char>, b: Seq<char>, c: Seq<char>) -> Option<RgbColor> {
    match (spec_hex_component(a), spec_hex_component(b), spec_hex_component(c)) {
        (Some(r), Some(g), Some(b)) => Some(RgbColor { r, g, b }),
        _ => None,
    }
}

/// An X11 color specification: `rgb:R/G/B` or `#RGB` with one to four hex digits
/// per component.
pub open spec fn spec_parse_rgb_color(value: Seq<char>) -> Option<RgbColor> {
    if text::has_prefix(value, rgb_prefix()) {
        match spec_rgb_parts(value.skip(4)) {
            Some((a, b, c)) => spec_color_of(a, b, c),
            None => None,
        }
    } else if value.len() > 0 && value[0] == '#' {
        let hex = value.skip(1);
        let d = hex.len() / 3;
        if all_ascii(hex) && 1 <= d <= 4 && hex.len() == d * 3 {
            spec_color_of(hex.take(d as int), hex.subrange(d as int, 2 * d as int), hex.skip(2 * d as int))
        } else {
            None
        }
    } else {
        None
    }
}

/// Reading `value` as a color slices a string inside a character and panics.
pub open spec fn rgb_color_panics(value: Seq<char>) -> bool {
    !text::has_prefix(value, rgb_prefix()) && value.len() > 0 && value[0] == '#'
        && hash_color_slicing_panics(value.skip(1))
}

fn all_ascii_str(s: &str) -> (r: bool)
    ensures
        r == all_ascii(s@),
{
    let n = s.unicode_len();
    let mut i: usize = 0;
    while i < n
        invariant
            n == s@.len(),
            i <= n,
            forall|k: int| 0 <= k < i ==> is_ascii_char(s@[k]),
        decreases n - i,
    {
        if (s.get_char(i) as u32) >= 0x80 {
            assert(!is_ascii_char(s@[i as int]));
            return false;
        }
        i = i + 1;
    }
    true
}

proof fn lemma_utf8_take_step(s: Seq<char>, i: int)
    requires
        0 <= i < s.len(),
    ensures
        utf8_seq_len(s.take(i + 1)) == utf8_seq_len(s.take(i)) + utf8_len(s[i]),
{
    assert(s.take(i + 1).drop_last() =~= s.take(i));
}

/// Longer prefixes take more bytes.
proof fn lemma_utf8_take_grows(s: Seq<char>, i: int, j: int)
    requires
        0 <= i < j <= s.len(),
    ensures
        utf8_seq_len(s.take(i)) < utf8_seq_len(s.take(j)),
    decreases j - i,
{
    lemma_utf8_take_step(s, j - 1);
    if i < j - 1 {
        lemma_utf8_take_grows(s, i, j - 1);
    }
}

fn char_utf8_len(c: char) -> (n: usize)
    ensures
        n == utf8_len(c),
{
    let v = c as u32;
    if v < 0x80 {
        1
    } else if v < 0x800 {
        2
    } else if v < 0x10000 {
        3
    } else {
        4
    }
}

/// The UTF-8 length of `s`, when it is at most 12 bytes.
fn short_utf8_len(s: &str) -> (r: Option<usize>)
    ensures
        r matches Some(n) ==> n == utf8_seq_len(s@) && n <= 12,
        r is None ==> utf8_seq_len(s@) > 12,
{
    let len = s.unicode_len();
    let mut acc: usize = 0;
    let mut i: usize = 0;
    while i < len
        invariant
            len == s@.len(),
            i <= len,
            acc == utf8_seq_len(s@.take(i as int)),
            acc <= 12,
        decreases len - i,
    {
        proof {
            lemma_utf8_take_step(s@, i as int);
        }
        acc = acc + char_utf8_len(s.get_char(i));
        if acc > 12 {
            proof {
                if i + 1 < len {
                    lemma_utf8_take_grows(s@, i + 1, len as int);
                }
                assert(s@.take(len as int) =~= s@);
            }
            return None;
        }
        i = i + 1;
    }
    assert(s@.take(len as int) =~= s@);
    Some(acc)
}

/// Whether byte offset `k` of `s` falls between two characters.
fn char_boundary_at(s: &str, k: usize) -> (r: bool)
    requires
        k <= 16,
    ensures
        r == is_char_boundary_at(s@, k as nat),
{
    let len = s.unicode_len();
    let mut acc: usize = 0;
    let mut i: usize = 0;
    loop
        invariant
            len == s@.len(),
            i <= len,
            k <= 16,
            acc == utf8_seq_len(s@.take(i as int)),
            forall|j: int| 0 <= j < i ==> utf8_seq_len(#[trigger] s@.take(j)) < k,
        decreases len - i,
    {
        if acc == k {
            assert(utf8_seq_len(s@.take(i as int)) == k);
            return true;
        }
        if acc > k || i == len {
            proof {
                assert forall|j: int| 0 <= j <= s@.len() implies utf8_seq_len(#[trigger] s@.take(j))
                    != k by {
                    if j > i {
                        lemma_utf8_take_grows(s@, i as int, j);
                    }
                }
            }
            return false;
        }
        proof {
            lemma_utf8_take_step(s@, i as int);
        }
        acc = acc + char_utf8_len(s.get_char(i));
        i = i + 1;
    }
}

/// Whether reading `value` as a color would slice a string inside a character (see
/// `rgb_color_panics`); the parsers below are defined on the other values.
pub fn rgb_color_would_panic(value: &str) -> (r: bool)
    ensures
        r == rgb_color_panics(value@),
{
    proof {
        reveal_strlit("rgb:");
        reveal_strlit("#");
    }
    assert("rgb:"@ == rgb_prefix());
    assert("#"@ =~= seq!['#']);
    if text::strip_prefix(value, "rgb:").is_some() {
        return false;
    }
    let hex = match text::strip_prefix(value, "#") {
        Some(h) => h,
        None => {
            proof {
                if value@.len() > 0 && value@[0] == '#' {
                    assert(value@.take(1) =~= "#"@);
                }
            }
            return false;
        },
    };
    assert(hex@ =~= value@.skip(1));
    assert(value@.take(1)[0] == '#');
    let n = match short_utf8_len(hex) {
        Some(n) => n,
        None => return false,
    };
    let d = n / 3;
    if d < 1 || d > 4 || n != d * 3 {
        return false;
    }
    if !char_boundary_at(hex, d) {
        return true;
    }
    let len = hex.unicode_len();
    if d > len {
        return false;
    }
    let first = hex.substring_char(0, d);
    assert(first@ =~= hex@.take(d as int));
    if parse_hex_component(first).is_none() {
        return false;
    }
    !char_boundary_at(hex, 2 * d)
}

fn parse_rgb_color(value: &str) -> (r: Option<RgbColor>)
    requires
        !rgb_color_panics(value@),
    ensures
        r == spec_parse_rgb_color(value@),
{
    proof {
        reveal_strlit("rgb:");
        reveal_strlit("#");
    }
    assert("rgb:"@ == rgb_prefix());
    if let Some(rgb) = text::strip_prefix(value, "rgb:") {
        let n = rgb.unicode_len();
        let i = match text::find_char(rgb, '/') {
            Some(i) => i,
            None => return None,
        };
        proof {
            text::lemma_first_index_of(rgb@, '/');
        }
        let after = rgb.substring_char(i + 1, n);
        assert(after@ =~= rgb@.skip(i + 1));
        let m = after.unicode_len();
        let j = match text::find_char(after, '/') {
            Some(j) => j,
            None => return None,
        };
        proof {
            text::lemma_first_index_of(after@, '/');
        }
        let last = after.substring_char(j + 1, m);
        assert(last@ =~= after@.skip(j + 1));
        if text::find_char(last, '/').is_some() {
            return None;
        }
        let first = rgb.substring_char(0, i);
        let second = after.substring_char(0, j);
        assert(first@ =~= rgb@.take(i as int));
        assert(second@ =~= after@.take(j as int));
        let r = match parse_hex_component(first) {
            Some(v) => v,
            None => return None,
        };
        let g = match parse_hex_component(second) {
            Some(v) => v,
            None => return None,
        };
        let b = match parse_hex_component(last) {
            Some(v) => v,
            None => return None,
        };
        return Some(RgbColor { r, g, b });
    }
    if let Some(hex) = text::strip_prefix(value, "#") {
        assert(hex@ =~= value@.skip(1));
        assert("#"@ =~= seq!['#']);
        assert(value@.take(1)[0] == '#');
        if !all_ascii_str(hex) {
            return None;
        }
        let n = hex.unicode_len();
        let d = n / 3;
        if d < 1 || d > 4 || n != d * 3 {
            return None;
        }
        let a = hex.substring_char(0, d);
        let b = hex.substring_char(d, 2 * d);
        let c = hex.substring_char(2 * d, n);
        assert(a@ =~= hex@.take(d as int));
        assert(c@ =~= hex@.skip(2 * d));
        let r = match parse_hex_component(a) {
            Some(v) => v,
            None => return None,
        };
        let g = match parse_hex_component(b) {
            Some(v) => v,
            None => return None,
        };
        let bl = match parse_hex_component(c) {
            Some(v) => v,
            None => return None,
        };
        return Some(RgbColor { r, g, b: bl });
    }
    proof {
        if value@.len() > 0 && value@[0] == '#' {
            assert(value@.take(1) =~= "#"@);
        }
    }
    None
}


pub open spec fn osc_introducer() -> Seq<char> {
    seq!['\x1b', ']']
}

pub open spec fn string_terminator() -> Seq<char> {
    seq!['\x1b', '\\']
}

pub open spec fn bell() -> Seq<char> {
    seq!['\x07']
}

/// The body of an OSC reply: between `ESC ]` and a terminator, `ESC \` or `BEL`.
pub open spec fn spec_osc_body(s: Seq<char>) -> Option<Seq<char>> {
    if text::has_prefix(s, osc_introducer()) {
        let body = s.skip(2);
        if text::has_suffix(body, string_terminator()) {
            Some(body.take(body.len() - 2))
        } else if text::has_suffix(body, bell()) {
            Some(body.take(body.len() - 1))
        } else {
            None
        }
    } else {
        None
    }
}

fn osc_body(sequence: &str) -> (r: Option<&str>)
    ensures
        match r {
            Some(body) => spec_osc_body(sequence@) == Some(body@),
            None => spec_osc_body(sequence@) is None,
        },
{
    proof {
        reveal_strlit("\x1b]");
        reveal_strlit("\x1b\\");
        reveal_strlit("\x07");
    }
    assert("\x1b]"@ =~= osc_introducer());
    assert("\x1b\\"@ =~= string_terminator());
    assert("\x07"@ =~= bell());
    let body = match text::strip_prefix(sequence, "\x1b]") {
        Some(b) => b,
        None => return None,
    };
    if let Some(inner) = text::strip_suffix(body, "\x1b\\") {
        return Some(inner);
    }
    text::strip_suffix(body, "\x07")
}

/// The command number and value of an OSC reply body, split at the first `;`.
pub open spec fn spec_split_once(body: Seq<char>, c: char) -> Option<(Seq<char>, Seq<char>)> {
    match text::first_index_of(body, c) {
        Some(i) => Some((body.take(i), body.skip(i + 1))),
        None => None,
    }
}

fn split_once(body: &str, c: char) -> (r: Option<(&str, &str)>)
    ensures
        match r {
            Some((a, b)) => spec_split_once(body@, c) == Some((a@, b@)),
            None => spec_split_once(body@, c) is None,
        },
{
    let n = body.unicode_len();
    match text::find_char(body, c) {
        Some(i) => {
            proof {
                text::lemma_first_index_of(body@, c);
            }
            let a = body.substring_char(0, i);
            let b = body.substring_char(i + 1, n);
            assert(a@ =~= body@.take(i as int));
            assert(b@ =~= body@.skip(i + 1));
            Some((a, b))
        },
        None => None,
    }
}

/// Which default color an OSC command number (`10` or `11`) refers to.
pub open spec fn spec_default_color_command(command: Seq<char>) -> Option<DefaultColorKind> {
    if command == seq!['1', '0'] {
        Some(DefaultColorKind::Foreground)
    } else if command == seq!['1', '1'] {
        Some(DefaultColorKind::Background)
    } else {
        None
    }
}

/// The reply to an OSC 10/11 query: `ESC ] 10|11 ; <color> ST`.
pub open spec fn spec_parse_default_color_response(s: Seq<char>) -> Option<(DefaultColorKind, RgbColor)> {
    match spec_osc_body(s) {
        None => None,
        Some(body) => match spec_split_once(body, ';') {
            None => None,
            Some((command, value)) => match spec_default_color_command(command) {
                None => None,
                Some(kind) => match spec_parse_rgb_color(value) {
                    Some(color) => Some((kind, color)),
                    None => None,
                },
            },
        },
    }
}

/// Reading `s` as an OSC 10/11 reply reaches a color that panics when sliced.
pub open spec fn default_color_response_panics(s: Seq<char>) -> bool {
    match spec_osc_body(s) {
        None => false,
        Some(body) => match spec_split_once(body, ';') {
            None => false,
            Some((command, value)) => spec_default_color_command(command) is Some
                && rgb_color_panics(value),
        },
    }
}

/// Whether reading `sequence` as an OSC 10/11 reply would panic (see
/// `default_color_response_panics`).
pub fn default_color_response_would_panic(sequence: &str) -> (r: bool)
    ensures
        r == default_color_response_panics(sequence@),
{
    let body = match osc_body(sequence) {
        Some(b) => b,
        None => return false,
    };
    let (command, value) = match split_once(body, ';') {
        Some(p) => p,
        None => return false,
    };
    proof {
        reveal_strlit("10");
        reveal_strlit("11");
    }
    assert("10"@ =~= seq!['1', '0']);
    assert("11"@ =~= seq!['1', '1']);
    if !text::str_eq(command, "10") && !text::str_eq(command, "11") {
        return false;
    }
    rgb_color_would_panic(value)
}

/// Parses the reply to an OSC 10 (foreground) or OSC 11 (background) query.
pub fn parse_default_color_response(sequence: &str) -> (r: Option<(DefaultColorKind, RgbColor)>)
    requires
        !default_color_response_panics(sequence@),
    ensures
        r == spec_parse_default_color_response(sequence@),
{
    let body = match osc_body(sequence) {
        Some(b) => b,
        None => return None,
    };
    let (command, value) = match split_once(body, ';') {
        Some(p) => p,
        None => return None,
    };
    proof {
        reveal_strlit("10");
        reveal_strlit("11");
    }
    assert("10"@ =~= seq!['1', '0']);
    assert("11"@ =~= seq!['1', '1']);
    let kind = if text::str_eq(command, "10") {
        DefaultColorKind::Foreground
    } else if text::str_eq(command, "11") {
        DefaultColorKind::Background
    } else {
        return None;
    };
    match parse_rgb_color(value) {
        Some(color) => Some((kind, color)),
        None => None,
    }
}

/// The reply to an OSC 4 query for an ANSI palette entry:
/// `ESC ] 4 ; <index> ; <color> ST`, with an index below 16.
pub open spec fn spec_parse_palette_color_response(s: Seq<char>) -> Option<(u8, RgbColor)> {
    match spec_osc_body(s) {
        None => None,
        Some(body) => if text::has_prefix(body, seq!['4', ';']) {
            match spec_split_once(body.skip(2), ';') {
                None => None,
                Some((index, value)) => match text::spec_parse_unsigned(index, 255) {
                    None => None,
                    Some(i) => if i >= HOST_ANSI_PALETTE_LEN {
                        None
                    } else {
                        match spec_parse_rgb_color(value) {
                            Some(color) => Some((i as u8, color)),
                            None => None,
                        }
                    },
                },
            }
        } else {
            None
        },
    }
}

/// Reading `s` as an OSC 4 reply reaches a color that panics when sliced.
pub open spec fn palette_color_response_panics(s: Seq<char>) -> bool {
    match spec_osc_body(s) {
        None => false,
        Some(body) => text::has_prefix(body, seq!['4', ';']) && match spec_split_once(
            body.skip(2),
            ';',
        ) {
            None => false,
            Some((index, value)) => match text::spec_parse_unsigned(index, 255) {
                None => false,
                Some(i) => i < HOST_ANSI_PALETTE_LEN && rgb_color_panics(value),
            },
        },
    }
}

/// Whether reading `sequence` as an OSC 4 reply would panic (see
/// `palette_color_response_panics`).
pub fn palette_color_response_would_panic(sequence: &str) -> (r: bool)
    ensures
        r == palette_color_response_panics(sequence@),
{
    let body = match osc_body(sequence) {
        Some(b) => b,
        None => return false,
    };
    proof {
        reveal_strlit("4;");
    }
    assert("4;"@ =~= seq!['4', ';']);
    let rest = match text::strip_prefix(body, "4;") {
        Some(r) => r,
        None => return false,
    };
    let (index, value) = match split_once(rest, ';') {
        Some(p) => p,
        None => return false,
    };
    let index = match text::parse_unsigned(index, 255) {
        Some(i) => i,
        None => return false,
    };
    if index >= HOST_ANSI_PALETTE_LEN as u64 {
        return false;
    }
    rgb_color_would_panic(value)
}

/// Parses an OSC 4 palette-color reply (`ESC ] 4 ; <index> ; rgb:.. ST`).
/// Only indices within the ANSI range (0..16) are reported.
pub fn parse_palette_color_response(sequence: &str) -> (r: Option<(u8, RgbColor)>)
    requires
        !palette_color_response_panics(sequence@),
    ensures
        r == spec_parse_palette_color_response(sequence@),
{
    let body = match osc_body(sequence) {
        Some(b) => b,
        None => return None,
    };
    proof {
        reveal_strlit("4;");
    }
    assert("4;"@ =~= seq!['4', ';']);
    let rest = match text::strip_prefix(body, "4;") {
        Some(r) => r,
        None => return None,
    };
    let (index, value) = match split_once(rest, ';') {
        Some(p) => p,
        None => return None,
    };
    let index = match text::parse_unsigned(index, 255) {
        Some(i) => i,
        None => return None,
    };
    if index >= HOST_ANSI_PALETTE_LEN as u64 {
        return None;
    }
    match parse_rgb_color(value) {
        Some(color) => Some((index as u8, color)),
        None => None,
    }
}


/// The two lowercase hex digits of `v`, as `{:02x}` writes them.
pub open spec fn hex_byte(v: u8) -> Seq<char> {
    seq![text::hex_char((v / 16) as nat), text::hex_char((v % 16) as nat)]
}

/// The OSC command number of a default color: `10` or `11`.
pub open spec fn default_color_command(kind: DefaultColorKind) -> Seq<char> {
    match kind {
        DefaultColorKind::Foreground => seq!['1', '0'],
        DefaultColorKind::Background => seq!['1', '1'],
    }
}

/// `ESC ] <10|11> ; rgb:RR/GG/BB ESC \`.
pub open spec fn spec_osc_set_default_color_sequence(kind: DefaultColorKind, color: RgbColor) -> Seq<
    char,
> {
    osc_introducer() + default_color_command(kind) + seq![';'] + rgb_prefix() + hex_byte(color.r)
        + seq!['/'] + hex_byte(color.g) + seq!['/'] + hex_byte(color.b) + string_terminator()
}

fn push_hex_byte(out: &mut String, v: u8)
    ensures
        final(out)@ == old(out)@ + hex_byte(v),
{
    out.append(text::hex_digit_str(v / 16));
    out.append(text::hex_digit_str(v % 16));
}

/// Sets a host default color: `ESC ] <10|11> ; rgb:RR/GG/BB ST`.
pub fn osc_set_default_color_sequence(kind: DefaultColorKind, color: RgbColor) -> (r: String)
    ensures
        r@ == spec_osc_set_default_color_sequence(kind, color),
{
    proof {
        reveal_strlit("\x1b]");
        reveal_strlit("10");
        reveal_strlit("11");
        reveal_strlit(";rgb:");
        reveal_strlit("/");
        reveal_strlit("\x1b\\");
    }
    let mut out = String::new();
    out.append("\x1b]");
    match kind {
        DefaultColorKind::Foreground => out.append("10"),
        DefaultColorKind::Background => out.append("11"),
    }
    out.append(";rgb:");
    push_hex_byte(&mut out, color.r);
    out.append("/");
    push_hex_byte(&mut out, color.g);
    out.append("/");
    push_hex_byte(&mut out, color.b);
    out.append("\x1b\\");
    assert(out@ =~= spec_osc_set_default_color_sequence(kind, color));
    out
}

/// Restores a host default color: `ESC ] 110 ST` or `ESC ] 111 ST`.
pub open spec fn spec_osc_reset_default_color_sequence(kind: DefaultColorKind) -> Seq<char> {
    match kind {
        DefaultColorKind::Foreground => seq!['\x1b', ']', '1', '1', '0', '\x1b', '\\'],
        DefaultColorKind::Background => seq!['\x1b', ']', '1', '1', '1', '\x1b', '\\'],
    }
}

pub fn osc_reset_default_color_sequence(kind: DefaultColorKind) -> (r: &'static str)
    ensures
        r@ == spec_osc_reset_default_color_sequence(kind),
{
    match kind {
        DefaultColorKind::Foreground => {
            proof {
                reveal_strlit("\x1b]110\x1b\\");
            }
            "\x1b]110\x1b\\"
        },
        DefaultColorKind::Background => {
            proof {
                reveal_strlit("\x1b]111\x1b\\");
            }
            "\x1b]111\x1b\\"
        },
    }
}

/// The OSC 4 query for palette entry `index`: `ESC ] 4 ; <index> ; ? ESC \`.
pub open spec fn palette_entry_query(index: nat) -> Seq<char> {
    seq!['\x1b', ']', '4', ';'] + text::dec_string(index) + seq![';', '?', '\x1b', '\\']
}

/// The queries for palette entries `0..n`, in order.
pub open spec fn palette_queries(n: nat) -> Seq<char>
    decreases n,
{
    if n == 0 {
        Seq::empty()
    } else {
        palette_queries((n - 1) as nat) + palette_entry_query((n - 1) as nat)
    }
}

/// OSC 4 queries for the 16 ANSI palette colors. Sent alongside the OSC 10/11
/// default-color queries; the replies arrive on the same input stream and are
/// read by `parse_palette_color_response`.
pub fn host_palette_query_sequence() -> (r: String)
    ensures
        r@ == palette_queries(HOST_ANSI_PALETTE_LEN as nat),
{
    proof {
        reveal_strlit("\x1b]4;");
        reveal_strlit(";?\x1b\\");
    }
    let mut sequence = String::new();
    let mut index: usize = 0;
    while index < HOST_ANSI_PALETTE_LEN
        invariant
            index <= HOST_ANSI_PALETTE_LEN,
            sequence@ == palette_queries(index as nat),
        decreases HOST_ANSI_PALETTE_LEN - index,
    {
        let ghost before = sequence@;
        proof {
            reveal_strlit("\x1b]4;");
            reveal_strlit(";?\x1b\\");
        }
        assert("\x1b]4;"@ =~= seq!['\x1b', ']', '4', ';']);
        assert(";?\x1b\\"@ =~= seq![';', '?', '\x1b', '\\']);
        sequence.append("\x1b]4;");
        text::push_decimal(&mut sequence, index as u64);
        sequence.append(";?\x1b\\");
        assert(sequence@ =~= before + palette_entry_query(index as nat));
        index = index + 1;
    }
    sequence
}


/// Two lowercase hex digits denote exactly the byte they were written from.
pub proof fn lemma_hex_byte_component(v: u8)
    ensures
        spec_hex_component(hex_byte(v)) == Some(v),
        text::first_index_of(hex_byte(v), '/') is None,
{
    let h = (v / 16) as nat;
    let l = (v % 16) as nat;
    text::lemma_hex_char(h);
    text::lemma_hex_char(l);
    let s = hex_byte(v);
    let s1 = seq![text::hex_char(h)];
    assert(text::all_hex(s));
    assert(s.drop_last() =~= s1);
    assert(s1.drop_last() =~= Seq::<char>::empty());
    assert(text::hex_value(Seq::<char>::empty()) == 0);
    assert(text::hex_value(s1) == h);
    assert(text::hex_value(s) == h * 16 + l);
    assert(h * 16 + l == v);
    assert((v * 255 + 127) / 255 == v as nat) by (nonlinear_arith)
        requires
            v <= 255,
    ;
    text::lemma_first_index_of_none(s, '/');
}

proof fn lemma_osc_body_of_framed(inner: Seq<char>)
    ensures
        spec_osc_body(osc_introducer() + inner + string_terminator()) == Some(inner),
{
    let s = osc_introducer() + inner + string_terminator();
    assert(s.take(2) =~= osc_introducer());
    let body = s.skip(2);
    assert(body =~= inner + string_terminator());
    assert(body.skip(body.len() - 2) =~= string_terminator());
    assert(body.take(body.len() - 2) =~= inner);
}

proof fn lemma_rgb_parts_of_hex_bytes(color: RgbColor)
    ensures
        spec_rgb_parts(hex_byte(color.r) + seq!['/'] + hex_byte(color.g) + seq!['/'] + hex_byte(
            color.b,
        )) == Some((hex_byte(color.r), hex_byte(color.g), hex_byte(color.b))),
{
    let hr = hex_byte(color.r);
    let hg = hex_byte(color.g);
    let hb = hex_byte(color.b);
    let rest = hr + seq!['/'] + hg + seq!['/'] + hb;
    lemma_hex_byte_component(color.b);
    text::lemma_hex_char((color.r / 16) as nat);
    text::lemma_hex_char((color.r % 16) as nat);
    text::lemma_hex_char((color.g / 16) as nat);
    text::lemma_hex_char((color.g % 16) as nat);
    text::lemma_first_index_of_at(rest, '/', 2);
    let after = rest.skip(3);
    assert(after =~= hg + seq!['/'] + hb);
    text::lemma_first_index_of_at(after, '/', 2);
    assert(after.skip(3) =~= hb);
    assert(rest.take(2) =~= hr);
    assert(after.take(2) =~= hg);
}

/// Reading back what `osc_set_default_color_sequence` writes gives the same kind and
/// color; the reading does not panic.
#[verifier::spinoff_prover]
#[verifier::rlimit(40)]
pub proof fn lemma_set_sequence_parses_back(kind: DefaultColorKind, color: RgbColor)
    ensures
        !default_color_response_panics(spec_osc_set_default_color_sequence(kind, color)),
        spec_parse_default_color_response(spec_osc_set_default_color_sequence(kind, color))
            == Some((kind, color)),
{
    let s = spec_osc_set_default_color_sequence(kind, color);
    let cmd = default_color_command(kind);
    let hr = hex_byte(color.r);
    let hg = hex_byte(color.g);
    let hb = hex_byte(color.b);
    let rest = hr + seq!['/'] + hg + seq!['/'] + hb;
    let value = rgb_prefix() + rest;
    let inner = cmd + seq![';'] + value;
    assert(s =~= osc_introducer() + inner + string_terminator());
    lemma_osc_body_of_framed(inner);
    text::lemma_hex_char((color.r / 16) as nat);
    text::lemma_hex_char((color.r % 16) as nat);
    text::lemma_first_index_of_at(inner, ';', 2);
    assert(inner.take(2) =~= cmd);
    assert(inner.skip(3) =~= value);
    assert(spec_split_once(inner, ';') == Some((cmd, value)));
    assert(spec_default_color_command(cmd) == Some(kind));
    assert(value.take(4) =~= rgb_prefix());
    assert(value.skip(4) =~= rest);
    lemma_rgb_parts_of_hex_bytes(color);
    lemma_hex_byte_component(color.r);
    lemma_hex_byte_component(color.g);
    lemma_hex_byte_component(color.b);
}


/// The reply a terminal gives to the OSC 4 query for palette entry `index`:
/// `ESC ] 4 ; <index> ; rgb:RR/GG/BB ESC \`.
pub open spec fn palette_reply(index: nat, color: RgbColor) -> Seq<char> {
    osc_introducer() + seq!['4', ';'] + text::dec_string(index) + seq![';'] + rgb_prefix()
        + hex_byte(color.r) + seq!['/'] + hex_byte(color.g) + seq!['/'] + hex_byte(color.b)
        + string_terminator()
}

/// A palette reply for an ANSI entry (below 16) reads back as that entry and color, and
/// reading it does not panic; every entry the parser reports is below 16.
#[verifier::spinoff_prover]
#[verifier::rlimit(40)]
pub proof fn lemma_palette_reply_parses_back(index: nat, color: RgbColor, s: Seq<char>)
    requires
        index < HOST_ANSI_PALETTE_LEN,
    ensures
        !palette_color_response_panics(palette_reply(index, color)),
        spec_parse_palette_color_response(palette_reply(index, color)) == Some(
            (index as u8, color),
        ),
        spec_parse_palette_color_response(s) matches Some((i, _)) ==> i < HOST_ANSI_PALETTE_LEN,
{
    let dec = text::dec_string(index);
    let hr = hex_byte(color.r);
    let hg = hex_byte(color.g);
    let hb = hex_byte(color.b);
    let rest = hr + seq!['/'] + hg + seq!['/'] + hb;
    let value = rgb_prefix() + rest;
    let after = dec + seq![';'] + value;
    let inner = seq!['4', ';'] + after;
    assert(palette_reply(index, color) =~= osc_introducer() + inner + string_terminator());
    lemma_osc_body_of_framed(inner);
    assert(inner.take(2) =~= seq!['4', ';']);
    assert(inner.skip(2) =~= after);
    text::lemma_dec_string_reads_back(index);
    assert forall|k: int| 0 <= k < dec.len() implies after[k] != ';' by {
        assert(after[k] == dec[k]);
        assert(text::is_dec_digit(dec[k]));
    }
    assert(after[dec.len() as int] == ';');
    text::lemma_first_index_of_at(after, ';', dec.len() as int);
    assert(after.take(dec.len() as int) =~= dec);
    assert(after.skip(dec.len() as int + 1) =~= value);
    assert(text::is_dec_digit(dec[0]));
    assert(text::spec_parse_unsigned(dec, 255) == Some(index));
    assert(value.take(4) =~= rgb_prefix());
    assert(value.skip(4) =~= rest);
    lemma_rgb_parts_of_hex_bytes(color);
    lemma_hex_byte_component(color.r);
    lemma_hex_byte_component(color.g);
    lemma_hex_byte_component(color.b);
}


/// Scaling a hex color component: more digits' worth of value never gives a darker channel
/// (for components of the same length), a component of only zeros gives 0, a component at
/// its largest value (all `f`) gives 255, and a two-digit component gives its own value.
pub proof fn lemma_hex_component_scaling(a: Seq<char>, b: Seq<char>)
    requires
        spec_hex_component(a) is Some,
        spec_hex_component(b) is Some,
    ensures
        a.len() == b.len() && text::hex_value(a) <= text::hex_value(b)
            ==> spec_hex_component(a).unwrap() <= spec_hex_component(b).unwrap(),
        text::hex_value(a) == 0 ==> spec_hex_component(a) == Some(0u8),
        text::hex_value(a) == hex_max(a.len()) ==> spec_hex_component(a) == Some(255u8),
        a.len() == 2 ==> spec_hex_component(a) == Some(text::hex_value(a) as u8),
{
    let m = hex_max(a.len());
    let va = text::hex_value(a);
    let vb = text::hex_value(b);
    lemma_hex_value_bound(a);
    lemma_hex_value_bound(b);
    lemma_scale_bound(va, a.len());
    lemma_scale_bound(vb, b.len());
    if a.len() == b.len() && va <= vb {
        vstd::arithmetic::div_mod::lemma_div_is_ordered(
            (va * 255 + m / 2) as int,
            (vb * 255 + m / 2) as int,
            m as int,
        );
    }
    if a.len() == 2 {
        assert((va * 255 + 127) / 255 == va) by (nonlinear_arith)
            requires
                va <= 255,
        ;
    }
}

} // verus!
