//! What the window shows and how it answers: the stylesheet, the keys, the
//! rows and the glue between them and the ranking.

use crate::apps::Catalog;
use crate::blur::{backdrop, blurred, factor_of, scalable, Image, MAX_RADIUS};
use crate::capture::Frame;
use crate::config::{
    all_colors, is_color, rgb_triplet, triplet_of, AppImageConfig, Colors, Palette,
};
use crate::matcher::folded;
use crate::number::{decimal, push_decimal};
use crate::rank::{entry_fits, is_ranking, rank, views};
use crate::text::{
    free_of, nothing_to_replace, replace, replaced, replacing_leaves_none, stays_apart,
    token_gives_way_to_the_value, trimmed,
};
use vstd::prelude::*;

verus! {

// ---------------------------------------------------------------------------
// Stylesheet
// ---------------------------------------------------------------------------

/// The font size of the search entry: 39 to the 21 of a row's name at any font
/// size, rounded down to whole pixels.
pub open spec fn entry_size_of(font_size: nat) -> nat {
    font_size * 39 / 21
}

/// The search entry keeps its proportion to a row's name at any font size, to
/// within the pixel that is rounded off; at multiples of 7 it is exact.
pub proof fn entry_keeps_its_proportion(font_size: nat)
    ensures
        39 * font_size - 21 < 21 * entry_size_of(font_size) <= 39 * font_size,
        font_size % 7 == 0 ==> 21 * entry_size_of(font_size) == 39 * font_size,
{
}

/// The stylesheet with its color and size placeholders filled in.
pub open spec fn styled(
    style: Seq<char>,
    colors: Palette,
    font_size: nat,
    dim: Seq<char>,
) -> Seq<char> {
    let s = replaced(style, "__BG_RGB__"@, triplet_of(colors.background));
    let s = replaced(s, "__PANEL_RGB__"@, triplet_of(colors.panel));
    let s = replaced(s, "__FOREGROUND__"@, colors.foreground);
    let s = replaced(s, "__SELECTION_RGB__"@, triplet_of(colors.selection));
    let s = replaced(s, "__SELECTION__"@, colors.selection);
    let s = replaced(s, "__ACCENT__"@, colors.accent);
    let s = replaced(s, "__MUTED__"@, colors.muted);
    let s = replaced(s, "__ENTRY_SIZE__"@, decimal(entry_size_of(font_size)));
    let s = replaced(s, "__NAME_SIZE__"@, decimal(font_size));
    replaced(s, "__DIM__"@, dim)
}

/// The placeholders of the stylesheet.
pub open spec fn placeholders() -> Seq<Seq<char>> {
    seq![
        "__BG_RGB__"@,
        "__PANEL_RGB__"@,
        "__FOREGROUND__"@,
        "__SELECTION_RGB__"@,
        "__SELECTION__"@,
        "__ACCENT__"@,
        "__MUTED__"@,
        "__ENTRY_SIZE__"@,
        "__NAME_SIZE__"@,
        "__DIM__"@,
    ]
}

pub open spec fn in_placeholder(c: char) -> bool {
    c == '_' || ('A' <= c && c <= 'Z')
}

/// Underscores and capitals, with an underscore at either end.
pub open spec fn is_placeholder(token: Seq<char>) -> bool {
    &&& token.len() > 0
    &&& token[0] == '_'
    &&& token.last() == '_'
    &&& forall|i: int| 0 <= i < token.len() ==> in_placeholder(#[trigger] token[i])
}

/// What can be filled in without making a placeholder: there is no underscore
/// in it, and not only capitals.
pub open spec fn is_filling(value: Seq<char>) -> bool {
    &&& !value.contains('_')
    &&& exists|i: int| 0 <= i < value.len() && !in_placeholder(#[trigger] value[i])
}

proof fn lemma_filling_stays_apart(value: Seq<char>, token: Seq<char>)
    requires
        is_filling(value),
        is_placeholder(token),
    ensures
        stays_apart(value, token),
{
    let k = choose|k: int| 0 <= k < value.len() && !in_placeholder(#[trigger] value[k]);
    if token.contains(value[k]) {
        let i = choose|i: int| 0 <= i < token.len() && token[i] == value[k];
        assert(in_placeholder(token[i]));
    }
    assert(!token.contains(value[k]));
}

proof fn lemma_color_is_filling(color: Seq<char>)
    requires
        is_color(color),
    ensures
        is_filling(color),
{
    assert(!in_placeholder(color[0]));
    if color.contains('_') {
        let i = choose|i: int| 0 <= i < color.len() && color[i] == '_';
        if i >= 1 {
            assert(crate::config::hex_value(color[i]) is Some);
        }
    }
}

proof fn lemma_decimal_is_filling(n: nat)
    ensures
        is_filling(decimal(n)),
{
    let digits = decimal(n);
    crate::number::decimal_is_digits(n);
    assert(crate::number::is_digit(digits[0]));
    assert(!in_placeholder(digits[0]));
    if digits.contains('_') {
        let i = choose|i: int| 0 <= i < digits.len() && digits[i] == '_';
        assert(crate::number::is_digit(digits[i]));
    }
}

proof fn lemma_triplet_is_filling(color: Seq<char>)
    ensures
        is_filling(triplet_of(color)),
{
    let (r, g, b) = crate::config::or_else(crate::config::rgb_of(color), (0u8, 0u8, 0u8));
    let (x, y, z) = (decimal(r as nat), decimal(g as nat), decimal(b as nat));
    lemma_decimal_is_filling(r as nat);
    lemma_decimal_is_filling(g as nat);
    lemma_decimal_is_filling(b as nat);
    let gap = seq![',', ' '];
    let text = triplet_of(color);
    assert(text == x + gap + y + gap + z);
    assert(text[x.len() as int] == ',');
    assert(!in_placeholder(text[x.len() as int]));
    if text.contains('_') {
        let i = choose|i: int| 0 <= i < text.len() && text[i] == '_';
        let (a, b2, c, d) = (
            x.len() as int,
            x.len() + 2,
            x.len() + 2 + y.len(),
            x.len() + 4 + y.len(),
        );
        if i < a {
            assert(x[i] == '_');
        } else if i < b2 {
            assert(gap[i - a] == '_');
        } else if i < c {
            assert(y[i - b2] == '_');
        } else if i < d {
            assert(gap[i - c] == '_');
        } else {
            assert(z[i - d] == '_');
        }
    }
}

/// The text is free of each of the first `n` placeholders.
spec fn filled(s: Seq<char>, n: int) -> bool {
    forall|k: int| 0 <= k < n ==> free_of(s, #[trigger] placeholders()[k])
}

proof fn lemma_placeholders()
    ensures
        placeholders().len() == 10,
        forall|k: int| 0 <= k < 10 ==> is_placeholder(#[trigger] placeholders()[k]),
{
    reveal_strlit("__BG_RGB__");
    reveal_strlit("__PANEL_RGB__");
    reveal_strlit("__FOREGROUND__");
    reveal_strlit("__SELECTION_RGB__");
    reveal_strlit("__SELECTION__");
    reveal_strlit("__ACCENT__");
    reveal_strlit("__MUTED__");
    reveal_strlit("__ENTRY_SIZE__");
    reveal_strlit("__NAME_SIZE__");
    reveal_strlit("__DIM__");
    assert(is_placeholder("__BG_RGB__"@));
    assert(is_placeholder("__PANEL_RGB__"@));
    assert(is_placeholder("__FOREGROUND__"@));
    assert(is_placeholder("__SELECTION_RGB__"@));
    assert(is_placeholder("__SELECTION__"@));
    assert(is_placeholder("__ACCENT__"@));
    assert(is_placeholder("__MUTED__"@));
    assert(is_placeholder("__ENTRY_SIZE__"@));
    assert(is_placeholder("__NAME_SIZE__"@));
    assert(is_placeholder("__DIM__"@));
}

proof fn lemma_fill(s: Seq<char>, n: int, value: Seq<char>)
    requires
        0 <= n < 10,
        filled(s, n),
        is_filling(value),
    ensures
        filled(replaced(s, placeholders()[n], value), n + 1),
{
    lemma_placeholders();
    let token = placeholders()[n];
    assert(is_placeholder(token));
    assert forall|k: int| 0 <= k < n + 1 implies free_of(
        replaced(s, token, value),
        #[trigger] placeholders()[k],
    ) by {
        lemma_filling_stays_apart(value, placeholders()[k]);
        replacing_leaves_none(s, token, value, placeholders()[k]);
    }
}

/// No placeholder is left in a stylesheet that was filled in with colors and an
/// opacity.
pub proof fn no_placeholder_is_left(
    style: Seq<char>,
    colors: Palette,
    font_size: nat,
    dim: Seq<char>,
)
    requires
        all_colors(colors),
        is_filling(dim),
    ensures
        forall|k: int|
            0 <= k < placeholders().len() ==> free_of(
                styled(style, colors, font_size, dim),
                #[trigger] placeholders()[k],
            ),
{
    lemma_placeholders();
    lemma_triplet_is_filling(colors.background);
    lemma_triplet_is_filling(colors.panel);
    lemma_color_is_filling(colors.foreground);
    lemma_triplet_is_filling(colors.selection);
    lemma_color_is_filling(colors.selection);
    lemma_color_is_filling(colors.accent);
    lemma_color_is_filling(colors.muted);
    lemma_decimal_is_filling(entry_size_of(font_size));
    lemma_decimal_is_filling(font_size);
    let s = style;
    lemma_fill(s, 0, triplet_of(colors.background));
    let s = replaced(s, "__BG_RGB__"@, triplet_of(colors.background));
    lemma_fill(s, 1, triplet_of(colors.panel));
    let s = replaced(s, "__PANEL_RGB__"@, triplet_of(colors.panel));
    lemma_fill(s, 2, colors.foreground);
    let s = replaced(s, "__FOREGROUND__"@, colors.foreground);
    lemma_fill(s, 3, triplet_of(colors.selection));
    let s = replaced(s, "__SELECTION_RGB__"@, triplet_of(colors.selection));
    lemma_fill(s, 4, colors.selection);
    let s = replaced(s, "__SELECTION__"@, colors.selection);
    lemma_fill(s, 5, colors.accent);
    let s = replaced(s, "__ACCENT__"@, colors.accent);
    lemma_fill(s, 6, colors.muted);
    let s = replaced(s, "__MUTED__"@, colors.muted);
    lemma_fill(s, 7, decimal(entry_size_of(font_size)));
    let s = replaced(s, "__ENTRY_SIZE__"@, decimal(entry_size_of(font_size)));
    lemma_fill(s, 8, decimal(font_size));
    let s = replaced(s, "__NAME_SIZE__"@, decimal(font_size));
    lemma_fill(s, 9, dim);
}

/// Two underscores at either end, and never two together in between.
spec fn is_marked(token: Seq<char>) -> bool {
    let n = token.len() as int;
    &&& n >= 5
    &&& token[0] == '_' && token[1] == '_'
    &&& token[n - 2] == '_' && token[n - 1] == '_'
    &&& forall|i: int| 1 <= i < n - 2 ==> !(#[trigger] token[i] == '_' && token[i + 1] == '_')
}

proof fn lemma_marked()
    ensures
        forall|k: int| 0 <= k < 10 ==> is_marked(#[trigger] placeholders()[k]),
        forall|j: int, k: int|
            0 <= j < k < 10 ==> #[trigger] placeholders()[j] != #[trigger] placeholders()[k],
{
    reveal_strlit("__BG_RGB__");
    reveal_strlit("__PANEL_RGB__");
    reveal_strlit("__FOREGROUND__");
    reveal_strlit("__SELECTION_RGB__");
    reveal_strlit("__SELECTION__");
    reveal_strlit("__ACCENT__");
    reveal_strlit("__MUTED__");
    reveal_strlit("__ENTRY_SIZE__");
    reveal_strlit("__NAME_SIZE__");
    reveal_strlit("__DIM__");
    assert(is_marked("__BG_RGB__"@));
    assert(is_marked("__PANEL_RGB__"@));
    assert(is_marked("__FOREGROUND__"@));
    assert(is_marked("__SELECTION_RGB__"@));
    assert(is_marked("__SELECTION__"@));
    assert(is_marked("__ACCENT__"@));
    assert(is_marked("__MUTED__"@));
    assert(is_marked("__ENTRY_SIZE__"@));
    assert(is_marked("__NAME_SIZE__"@));
    assert(is_marked("__DIM__"@));
    // The third and the fifth letter tell them apart, and two by their length.
    assert(placeholders()[0] == "__BG_RGB__"@ && "__BG_RGB__"@.len() == 10 && "__BG_RGB__"@[2] == 'B' && "__BG_RGB__"@[4] == '_');
    assert(placeholders()[1] == "__PANEL_RGB__"@ && "__PANEL_RGB__"@.len() == 13 && "__PANEL_RGB__"@[2] == 'P' && "__PANEL_RGB__"@[4] == 'N');
    assert(placeholders()[2] == "__FOREGROUND__"@ && "__FOREGROUND__"@.len() == 14 && "__FOREGROUND__"@[2] == 'F' && "__FOREGROUND__"@[4] == 'R');
    assert(placeholders()[3] == "__SELECTION_RGB__"@ && "__SELECTION_RGB__"@.len() == 17 && "__SELECTION_RGB__"@[2] == 'S' && "__SELECTION_RGB__"@[4] == 'L');
    assert(placeholders()[4] == "__SELECTION__"@ && "__SELECTION__"@.len() == 13 && "__SELECTION__"@[2] == 'S' && "__SELECTION__"@[4] == 'L');
    assert(placeholders()[5] == "__ACCENT__"@ && "__ACCENT__"@.len() == 10 && "__ACCENT__"@[2] == 'A' && "__ACCENT__"@[4] == 'C');
    assert(placeholders()[6] == "__MUTED__"@ && "__MUTED__"@.len() == 9 && "__MUTED__"@[2] == 'M' && "__MUTED__"@[4] == 'T');
    assert(placeholders()[7] == "__ENTRY_SIZE__"@ && "__ENTRY_SIZE__"@.len() == 14 && "__ENTRY_SIZE__"@[2] == 'E' && "__ENTRY_SIZE__"@[4] == 'T');
    assert(placeholders()[8] == "__NAME_SIZE__"@ && "__NAME_SIZE__"@.len() == 13 && "__NAME_SIZE__"@[2] == 'N' && "__NAME_SIZE__"@[4] == 'M');
    assert(placeholders()[9] == "__DIM__"@ && "__DIM__"@.len() == 7 && "__DIM__"@[2] == 'D' && "__DIM__"@[4] == 'M');
}

/// A marked token stands nowhere but in itself.
proof fn lemma_marked_apart(a: Seq<char>, token: Seq<char>, b: Seq<char>, other: Seq<char>)
    requires
        is_marked(token),
        is_marked(other),
        token != other,
        !a.contains('_'),
        !b.contains('_'),
    ensures
        free_of(a + token + b, other),
{
    let s = a + token + b;
    let (m, n) = (token.len() as int, other.len() as int);
    assert forall|i: int| 0 <= i <= s.len() - n implies #[trigger] s.subrange(i, i + n) != other by {
        if s.subrange(i, i + n) == other {
            let part = s.subrange(i, i + n);
            assert(part[0] == s[i] && part[1] == s[i + 1]);
            assert(part[n - 2] == s[i + n - 2] && part[n - 1] == s[i + n - 1]);
            let k = i - a.len();
            lemma_pair_is_inside(a, token, b, i);
            lemma_pair_is_inside(a, token, b, i + n - 2);
            assert(k == 0 || k == m - 2) by {
                if 1 <= k < m - 2 {
                    assert(!(token[k] == '_' && token[k + 1] == '_'));
                }
            }
            assert(k + n - 2 == 0 || k + n - 2 == m - 2) by {
                if 1 <= k + n - 2 < m - 2 {
                    assert(!(token[k + n - 2] == '_' && token[k + n - 2 + 1] == '_'));
                }
            }
            assert(part =~= token);
        }
    }
}

proof fn lemma_pair_is_inside(a: Seq<char>, token: Seq<char>, b: Seq<char>, i: int)
    requires
        !a.contains('_'),
        !b.contains('_'),
        0 <= i,
        i + 1 < (a + token + b).len(),
        (a + token + b)[i] == '_',
        (a + token + b)[i + 1] == '_',
    ensures
        a.len() <= i,
        i + 1 < a.len() + token.len(),
        token[i - a.len()] == '_',
        token[i + 1 - a.len()] == '_',
{
    let s = a + token + b;
    if i < a.len() {
        assert(a[i] == '_');
    }
    if i + 1 >= a.len() + token.len() {
        assert(b[i + 1 - a.len() - token.len()] == '_');
    }
}

/// Each placeholder reads its own value wherever it stands: the color, size or
/// opacity of its name.
pub proof fn each_placeholder_reads_its_value(
    a: Seq<char>,
    b: Seq<char>,
    colors: Palette,
    font_size: nat,
    dim: Seq<char>,
)
    requires
        all_colors(colors),
        is_filling(dim),
        !a.contains('_'),
        !b.contains('_'),
    ensures
        styled(a + "__BG_RGB__"@ + b, colors, font_size, dim) == a + triplet_of(colors.background) + b,
        styled(a + "__PANEL_RGB__"@ + b, colors, font_size, dim) == a + triplet_of(colors.panel) + b,
        styled(a + "__FOREGROUND__"@ + b, colors, font_size, dim) == a + colors.foreground + b,
        styled(a + "__SELECTION_RGB__"@ + b, colors, font_size, dim) == a + triplet_of(colors.selection) + b,
        styled(a + "__SELECTION__"@ + b, colors, font_size, dim) == a + colors.selection + b,
        styled(a + "__ACCENT__"@ + b, colors, font_size, dim) == a + colors.accent + b,
        styled(a + "__MUTED__"@ + b, colors, font_size, dim) == a + colors.muted + b,
        styled(a + "__ENTRY_SIZE__"@ + b, colors, font_size, dim) == a + decimal(font_size * 39 / 21) + b,
        styled(a + "__NAME_SIZE__"@ + b, colors, font_size, dim) == a + decimal(font_size) + b,
        styled(a + "__DIM__"@ + b, colors, font_size, dim) == a + dim + b,
{
    let values = seq![
        triplet_of(colors.background),
        triplet_of(colors.panel),
        colors.foreground,
        triplet_of(colors.selection),
        colors.selection,
        colors.accent,
        colors.muted,
        decimal(font_size * 39 / 21),
        decimal(font_size),
        dim,
    ];
    lemma_triplet_is_filling(colors.background);
    lemma_triplet_is_filling(colors.panel);
    lemma_color_is_filling(colors.foreground);
    lemma_triplet_is_filling(colors.selection);
    lemma_color_is_filling(colors.selection);
    lemma_color_is_filling(colors.accent);
    lemma_color_is_filling(colors.muted);
    lemma_decimal_is_filling(entry_size_of(font_size));
    lemma_decimal_is_filling(font_size);
    assert forall|n: int| 0 <= n < 10 implies styled(
        a + #[trigger] placeholders()[n] + b,
        colors,
        font_size,
        dim,
    ) == a + values[n] + b by {
        lemma_one_placeholder(a, b, values, n, 10);
        let s = a + placeholders()[n] + b;
        assert(styled(s, colors, font_size, dim) == filled_in(s, values, 10)) by {
            reveal_with_fuel(filled_in, 11);
        }
    }
    assert(placeholders()[0] == "__BG_RGB__"@ && values[0] == triplet_of(colors.background));
    assert(placeholders()[1] == "__PANEL_RGB__"@ && values[1] == triplet_of(colors.panel));
    assert(placeholders()[2] == "__FOREGROUND__"@ && values[2] == colors.foreground);
    assert(placeholders()[3] == "__SELECTION_RGB__"@ && values[3] == triplet_of(colors.selection));
    assert(placeholders()[4] == "__SELECTION__"@ && values[4] == colors.selection);
    assert(placeholders()[5] == "__ACCENT__"@ && values[5] == colors.accent);
    assert(placeholders()[6] == "__MUTED__"@ && values[6] == colors.muted);
    assert(placeholders()[7] == "__ENTRY_SIZE__"@ && values[7] == decimal(font_size * 39 / 21));
    assert(placeholders()[8] == "__NAME_SIZE__"@ && values[8] == decimal(font_size));
    assert(placeholders()[9] == "__DIM__"@ && values[9] == dim);
}

/// The text with the first `count` placeholders filled in.
spec fn filled_in(s: Seq<char>, values: Seq<Seq<char>>, count: nat) -> Seq<char>
    decreases count,
{
    if count == 0 {
        s
    } else {
        replaced(
            filled_in(s, values, (count - 1) as nat),
            placeholders()[count - 1],
            values[count - 1],
        )
    }
}

proof fn lemma_one_placeholder(
    a: Seq<char>,
    b: Seq<char>,
    values: Seq<Seq<char>>,
    n: int,
    count: nat,
)
    requires
        !a.contains('_'),
        !b.contains('_'),
        values.len() == 10,
        forall|k: int| 0 <= k < 10 ==> is_filling(#[trigger] values[k]),
        0 <= n < 10,
        count <= 10,
    ensures
        filled_in(a + placeholders()[n] + b, values, count) == if count <= n {
            a + placeholders()[n] + b
        } else {
            a + values[n] + b
        },
    decreases count,
{
    lemma_marked();
    let token = placeholders()[n];
    if count > 0 {
        let c = count - 1;
        lemma_one_placeholder(a, b, values, n, c as nat);
        let other = placeholders()[c];
        assert(is_marked(other) && is_marked(token));
        if c < n {
            assert(placeholders()[c] != placeholders()[n]);
            lemma_marked_apart(a, token, b, other);
            nothing_to_replace(a + token + b, other, values[c]);
        } else if c == n {
            token_gives_way_to_the_value(a, token, values[n], b);
        } else {
            let s = a + values[n] + b;
            assert(is_filling(values[n]));
            assert(!s.contains('_')) by {
                if s.contains('_') {
                    let i = choose|i: int| 0 <= i < s.len() && s[i] == '_';
                    let v = values[n];
                    if i < a.len() {
                        assert(a[i] == '_');
                    } else if i < a.len() + v.len() {
                        assert(v[i - a.len()] == '_');
                    } else {
                        assert(b[i - a.len() - v.len()] == '_');
                    }
                }
            }
            assert(free_of(s, other)) by {
                assert forall|i: int| 0 <= i <= s.len() - other.len() implies #[trigger] s.subrange(
                    i,
                    i + other.len(),
                ) != other by {
                    if s.subrange(i, i + other.len()) == other {
                        assert(s.subrange(i, i + other.len())[0] == s[i]);
                    }
                }
            }
            nothing_to_replace(s, other, values[c]);
        }
    }
}

fn number_text(n: u64) -> (r: String)
    ensures
        r@ == decimal(n as nat),
{
    let mut text = String::new();
    push_decimal(&mut text, n);
    assert(text@ =~= decimal(n as nat));
    text
}

/// Fill in the color and size placeholders of `style`. Plain text
/// substitution, so the result is ordinary CSS. `dim` is the opacity of the
/// backdrop as a decimal number.
pub fn render_style(style: &str, colors: &Colors, font_size: u32, dim: &str) -> (r: String)
    ensures
        r@ == styled(style@, colors@, font_size as nat, dim@),
{
    proof {
        reveal_strlit("__BG_RGB__");
        reveal_strlit("__PANEL_RGB__");
        reveal_strlit("__FOREGROUND__");
        reveal_strlit("__SELECTION_RGB__");
        reveal_strlit("__SELECTION__");
        reveal_strlit("__ACCENT__");
        reveal_strlit("__MUTED__");
        reveal_strlit("__ENTRY_SIZE__");
        reveal_strlit("__NAME_SIZE__");
        reveal_strlit("__DIM__");
    }
    let entry_size: u64 = font_size as u64 * 39 / 21;
    let s = replace(style, "__BG_RGB__", rgb_triplet(colors.background.as_str()).as_str());
    let s = replace(
        s.as_str(),
        "__PANEL_RGB__",
        rgb_triplet(colors.panel.as_str()).as_str(),
    );
    let s = replace(s.as_str(), "__FOREGROUND__", colors.foreground.as_str());
    let s = replace(
        s.as_str(),
        "__SELECTION_RGB__",
        rgb_triplet(colors.selection.as_str()).as_str(),
    );
    let s = replace(s.as_str(), "__SELECTION__", colors.selection.as_str());
    let s = replace(s.as_str(), "__ACCENT__", colors.accent.as_str());
    let s = replace(s.as_str(), "__MUTED__", colors.muted.as_str());
    let s = replace(s.as_str(), "__ENTRY_SIZE__", number_text(entry_size).as_str());
    let s = replace(s.as_str(), "__NAME_SIZE__", number_text(font_size as u64).as_str());
    replace(s.as_str(), "__DIM__", dim)
}

// ---------------------------------------------------------------------------
// Keys
// ---------------------------------------------------------------------------

/// The keys that the window looks at.
#[derive(Clone, Copy)]
pub enum Key {
    Escape,
    Return,
    KeypadEnter,
    Down,
    Tab,
    Up,
    LeftTab,
    PageDown,
    PageUp,
    J,
    K,
    N,
    P,
    Other,
}

/// What a key press does.
#[derive(Clone, Copy)]
pub enum Answer {
    Close,
    Activate,
    /// Move the selection by this many rows.
    Step(i32),
    /// Leave the key to the search entry.
    Pass,
}

/// Letters only move the selection together with Control.
pub open spec fn answer_to(key: Key, ctrl: bool) -> Answer {
    match key {
        Key::Escape => Answer::Close,
        Key::Return | Key::KeypadEnter => Answer::Activate,
        Key::Down | Key::Tab => Answer::Step(1),
        Key::Up | Key::LeftTab => Answer::Step((-1) as i32),
        Key::PageDown => Answer::Step(5),
        Key::PageUp => Answer::Step((-5) as i32),
        Key::N | Key::J => if ctrl {
            Answer::Step(1)
        } else {
            Answer::Pass
        },
        Key::P | Key::K => if ctrl {
            Answer::Step((-1) as i32)
        } else {
            Answer::Pass
        },
        Key::Other => Answer::Pass,
    }
}

pub fn key_pressed(key: Key, ctrl: bool) -> (r: Answer)
    ensures
        r == answer_to(key, ctrl),
{
    match key {
        Key::Escape => Answer::Close,
        Key::Return | Key::KeypadEnter => Answer::Activate,
        Key::Down | Key::Tab => Answer::Step(1),
        Key::Up | Key::LeftTab => Answer::Step(-1),
        Key::PageDown => Answer::Step(5),
        Key::PageUp => Answer::Step(-5),
        Key::N | Key::J => if ctrl {
            Answer::Step(1)
        } else {
            Answer::Pass
        },
        Key::P | Key::K => if ctrl {
            Answer::Step(-1)
        } else {
            Answer::Pass
        },
        Key::Other => Answer::Pass,
    }
}

// ---------------------------------------------------------------------------
// Selection
// ---------------------------------------------------------------------------

/// The row `delta` rows from `selected`, of `len` rows that wrap around.
pub open spec fn moved(selected: int, delta: int, len: int) -> int {
    (selected + delta) % len
}

/// The row to select next; there is none where nothing is shown.
pub fn move_selection(selected: usize, delta: i32, len: usize) -> (r: Option<usize>)
    requires
        len <= i32::MAX,
        len > 0 ==> i32::MIN <= selected + delta <= i32::MAX,
        selected <= i32::MAX,
    ensures
        match r {
            Some(next) => len > 0 && next == moved(selected as int, delta as int, len as int)
                && next < len,
            None => len == 0,
        },
{
    if len == 0 {
        return None;
    }
    let sum: i64 = selected as i64 + delta as i64;
    if sum >= 0 {
        return Some((sum as u64 % len as u64) as usize);
    }
    let back: u64 = (0 - sum) as u64;
    let rest: u64 = back % len as u64;
    proof {
        let (b, n) = (back as int, len as int);
        let q = b / n;
        vstd::arithmetic::div_mod::lemma_fundamental_div_mod(b, n);
        if rest == 0 {
            assert(-b == n * (-q) + 0) by (nonlinear_arith)
                requires
                    b == n * q,
            ;
            vstd::arithmetic::div_mod::lemma_mod_multiples_vanish(-q, 0, n);
            vstd::arithmetic::div_mod::lemma_small_mod(0, n as nat);
        } else {
            assert(-b == n * (-q - 1) + (n - rest)) by (nonlinear_arith)
                requires
                    b == n * q + rest,
            ;
            vstd::arithmetic::div_mod::lemma_mod_multiples_vanish(-q - 1, n - rest, n);
            vstd::arithmetic::div_mod::lemma_small_mod((n - rest) as nat, n as nat);
        }
    }
    if rest == 0 {
        Some(0)
    } else {
        Some(len - rest as usize)
    }
}

/// The selection stays on the list, however far it is moved.
pub proof fn selection_stays_on_the_list(selected: int, delta: int, len: int)
    requires
        len > 0,
    ensures
        0 <= moved(selected, delta, len) < len,
{
}

/// The selection is moved by just as many rows as it is told, but for whole
/// turns of the list.
pub proof fn selection_moves_as_told(selected: int, delta: int, len: int) -> (turns: int)
    requires
        len > 0,
    ensures
        moved(selected, delta, len) + turns * len == selected + delta,
{
    let sum = selected + delta;
    vstd::arithmetic::div_mod::lemma_fundamental_div_mod(sum, len);
    let turns = sum / len;
    assert(turns * len == len * turns) by (nonlinear_arith);
    turns
}

/// Going as far back as forward leads back to the same row.
pub proof fn moving_back_undoes_moving(selected: int, delta: int, len: int)
    requires
        0 <= selected < len,
    ensures
        moved(moved(selected, delta, len), -delta, len) == selected,
{
    let sum = selected + delta;
    let q = sum / len;
    vstd::arithmetic::div_mod::lemma_fundamental_div_mod(sum, len);
    assert(sum % len - delta == selected + len * (-q)) by (nonlinear_arith)
        requires
            sum == len * q + sum % len,
            sum == selected + delta,
    ;
    vstd::arithmetic::div_mod::lemma_mod_multiples_vanish(-q, selected, len);
    vstd::arithmetic::div_mod::lemma_small_mod(selected as nat, len as nat);
}

/// As many steps down as there are rows lead all the way round.
pub proof fn selection_wraps_around(selected: int, len: int)
    requires
        0 <= selected < len,
    ensures
        moved(selected, len, len) == selected,
        moved(len - 1, 1, len) == 0,
        moved(0, -1, len) == len - 1,
{
    vstd::arithmetic::div_mod::lemma_mod_multiples_vanish(1, selected, len);
    vstd::arithmetic::div_mod::lemma_small_mod(selected as nat, len as nat);
    vstd::arithmetic::div_mod::lemma_mod_self_0(len);
    vstd::arithmetic::div_mod::lemma_mod_multiples_vanish(-1, len - 1, len);
    vstd::arithmetic::div_mod::lemma_small_mod((len - 1) as nat, len as nat);
}

// ---------------------------------------------------------------------------
// Rows
// ---------------------------------------------------------------------------

/// What to do with a row.
#[derive(Clone, Copy)]
pub enum RowUpdate {
    /// Fill it with the entry at this index and show it.
    Fill(usize),
    /// Show it as it is: it holds the right entry already.
    Keep,
    Hide,
}

/// What row `position` shows when `shown` is.
pub open spec fn row_after(shown: Seq<usize>, position: int) -> Option<usize> {
    if position < shown.len() {
        Some(shown[position])
    } else {
        None
    }
}

/// What to do with a row that holds `before` and is to show `after`.
pub open spec fn update_of(before: Option<usize>, after: Option<usize>) -> RowUpdate {
    match after {
        Some(index) => if before == after {
            RowUpdate::Keep
        } else {
            RowUpdate::Fill(index)
        },
        None => RowUpdate::Hide,
    }
}

/// What a row holds after an update.
pub open spec fn row_with(before: Option<usize>, update: RowUpdate) -> Option<usize> {
    match update {
        RowUpdate::Fill(index) => Some(index),
        RowUpdate::Keep => before,
        RowUpdate::Hide => None,
    }
}

/// However few rows are filled again, each row ends up with what it is to show.
pub proof fn rows_show_what_they_should(before: Option<usize>, after: Option<usize>)
    ensures
        row_with(before, update_of(before, after)) == after,
{
}

/// Refill the rows. `rows` holds what each row displays. Narrowing a query
/// usually leaves the top rows where they were, and filling one is expensive,
/// so a row that holds the right entry already is left alone.
pub fn update_rows(rows: &mut Vec<Option<usize>>, shown: &Vec<usize>) -> (r: Vec<RowUpdate>)
    ensures
        final(rows)@.len() == old(rows)@.len(),
        r@.len() == old(rows)@.len(),
        forall|i: int|
            0 <= i < old(rows)@.len() ==> #[trigger] final(rows)@[i] == row_after(shown@, i),
        forall|i: int|
            0 <= i < old(rows)@.len() ==> #[trigger] r@[i] == update_of(
                old(rows)@[i],
                row_after(shown@, i),
            ),
        // A row shows the entry at its place, or is hidden where there is none.
        forall|i: int|
            0 <= i < old(rows)@.len() ==> #[trigger] final(rows)@[i] == (if i < shown@.len() {
                Some(shown@[i])
            } else {
                None
            }),
        forall|i: int|
            0 <= i < old(rows)@.len() ==> (#[trigger] r@[i] is Hide <==> i >= shown@.len()),
        forall|i: int|
            0 <= i < old(rows)@.len() && i < shown@.len() ==> (#[trigger] r@[i] is Keep
                <==> old(rows)@[i] == Some(shown@[i])) && (r@[i] matches RowUpdate::Fill(index)
                ==> index == shown@[i]),
{
    let ghost before = rows@;
    let mut updates: Vec<RowUpdate> = Vec::new();
    let mut i: usize = 0;
    while i < rows.len()
        invariant
            i <= rows@.len() == before.len(),
            updates@.len() == i,
            forall|k: int| 0 <= k < i ==> #[trigger] rows@[k] == row_after(shown@, k),
            forall|k: int| i <= k < rows@.len() ==> #[trigger] rows@[k] == before[k],
            forall|k: int|
                0 <= k < i ==> #[trigger] updates@[k] == update_of(
                    before[k],
                    row_after(shown@, k),
                ),
        decreases rows@.len() - i,
    {
        if i < shown.len() {
            let index: usize = shown[i];
            let held: bool = match rows[i] {
                Some(old_index) => old_index == index,
                None => false,
            };
            if held {
                updates.push(RowUpdate::Keep);
            } else {
                updates.push(RowUpdate::Fill(index));
            }
            rows.set(i, Some(index));
        } else {
            updates.push(RowUpdate::Hide);
            rows.set(i, None);
        }
        i += 1;
    }
    updates
}

/// The height of a full list of rows, measured from one of them; there is none
/// of a row that measures as nothing. Holding it keeps the panel's size
/// whatever a query leaves in the list.
pub fn full_height(natural: i32, rows: usize) -> (r: Option<i32>)
    requires
        natural > 0 ==> natural * rows <= i32::MAX,
        rows <= i32::MAX,
    ensures
        match r {
            Some(height) => natural > 0 && height == natural * rows,
            None => natural <= 0,
        },
{
    if natural > 0 {
        assert(0 <= natural * rows) by (nonlinear_arith)
            requires
                natural > 0,
                rows >= 0,
        ;
        Some(natural * rows as i32)
    } else {
        None
    }
}

/// The icon of an AppImage, or `fallback` for one without.
pub fn appimage_icon<'a>(app: &'a AppImageConfig, fallback: &'a str) -> (r: &'a str)
    ensures
        r@ == match app.icon {
            Some(icon) => icon@,
            None => fallback@,
        },
{
    match &app.icon {
        Some(icon) => icon.as_str(),
        None => fallback,
    }
}

// ---------------------------------------------------------------------------
// Backdrops
// ---------------------------------------------------------------------------

/// Which backdrop goes behind the window.
#[derive(Clone, Copy)]
pub enum Choice {
    /// Leave the one that is there.
    Keep,
    Show(usize),
    Blank,
}

/// The first backdrop of the named output.
pub open spec fn is_first_of(names: Seq<Option<String>>, name: Seq<char>, i: int) -> bool {
    &&& 0 <= i < names.len()
    &&& crate::config::text_of(names[i]) == Some(name)
    &&& forall|k: int| 0 <= k < i ==> crate::config::text_of(#[trigger] names[k]) != Some(name)
}

/// Pick the screenshot of the output the compositor put the window on. `names`
/// are the outputs of the backdrops and `monitor` is that of the window.
pub fn match_backdrop(names: &Vec<Option<String>>, monitor: &Option<String>) -> (r: Choice)
    ensures
        ({
            let unnamed = forall|i: int| 0 <= i < names@.len() ==> #[trigger] names@[i] is None;
            match r {
                Choice::Keep => unnamed || monitor is None,
                Choice::Show(i) => !unnamed && monitor is Some && is_first_of(
                    names@,
                    monitor.unwrap()@,
                    i as int,
                ),
                Choice::Blank => !unnamed && monitor is Some && forall|i: int|
                    0 <= i < names@.len() ==> crate::config::text_of(#[trigger] names@[i]) != Some(
                        monitor.unwrap()@,
                    ),
            }
        }),
{
    // A single output skips the round trip that delivers connector names, so
    // unnamed shots are the one case where whatever was captured is by
    // definition the right one. Everything else has to be matched, including a
    // lone shot left over from a capture where another output failed.
    let mut named: bool = false;
    let mut i: usize = 0;
    while i < names.len()
        invariant
            i <= names@.len(),
            named == exists|k: int| 0 <= k < i && #[trigger] names@[k] is Some,
        decreases names@.len() - i,
    {
        if names[i].is_some() {
            named = true;
            assert(names@[i as int] is Some);
        }
        i += 1;
    }
    if !named {
        assert forall|k: int| 0 <= k < names@.len() implies #[trigger] names@[k] is None by {
            if names@[k] is Some {
                assert(named);
            }
        }
        return Choice::Keep;
    }
    // No name of the monitor is not the same as no match: without one there
    // is nothing to pair against, so the first shot stays in place rather than
    // blanking a backdrop that may well be correct.
    let connector: &String = match monitor {
        Some(connector) => connector,
        None => {
            return Choice::Keep;
        },
    };
    let mut k: usize = 0;
    while k < names.len()
        invariant
            k <= names@.len(),
            monitor is Some,
            connector@ == monitor.unwrap()@,
            !(forall|i: int| 0 <= i < names@.len() ==> #[trigger] names@[i] is None),
            forall|j: int|
                0 <= j < k ==> crate::config::text_of(#[trigger] names@[j]) != Some(connector@),
        decreases names@.len() - k,
    {
        if let Some(name) = &names[k] {
            if *name == *connector {
                return Choice::Show(k);
            }
        }
        k += 1;
    }
    // This output is named and nothing was captured for it. No backdrop beats
    // another monitor's desktop behind the panel.
    Choice::Blank
}

/// A blurred picture with the name of its output.
pub struct Picture {
    pub output: Option<Seq<char>>,
    pub width: int,
    pub height: int,
    pub rgb: Seq<u8>,
}

/// The blurred pictures that `frames` give, each with its output: one for
/// every frame that can be scaled.
pub open spec fn backdrops_of(frames: Seq<Frame>, radius: int) -> Seq<Picture>
    decreases frames.len(),
{
    if frames.len() == 0 {
        seq![]
    } else {
        let before = backdrops_of(frames.drop_last(), radius);
        let frame = frames.last();
        let factor = factor_of(frame.width as int, frame.height as int);
        if scalable(frame, factor) {
            before.push(
                Picture {
                    output: crate::config::text_of(frame.connector),
                    width: frame.width as int / factor,
                    height: frame.height as int / factor,
                    rgb: backdrop(frame, radius),
                },
            )
        } else {
            before
        }
    }
}

/// Frames are blurred one after the other: one more frame that can be scaled is
/// one more picture behind the others, with its output's name and its own
/// proportions, and any other frame is none.
pub proof fn frames_are_blurred_one_by_one(frames: Seq<Frame>, frame: Frame, radius: int)
    ensures
        ({
            let f = factor_of(frame.width as int, frame.height as int);
            let before = backdrops_of(frames, radius);
            backdrops_of(frames.push(frame), radius) == if frame.width as int / f > 0
                && frame.height as int / f > 0 && frame.stride >= 4 * frame.width
                && frame.data@.len() >= frame.stride * frame.height {
                before.push(
                    Picture {
                        output: crate::config::text_of(frame.connector),
                        width: frame.width as int / f,
                        height: frame.height as int / f,
                        rgb: backdrop(frame, radius),
                    },
                )
            } else {
                before
            }
        }),
{
    assert(frames.push(frame).drop_last() == frames);
}

pub open spec fn picture_of(output: Option<String>, image: Image) -> Picture {
    Picture {
        output: crate::config::text_of(output),
        width: image.width as int,
        height: image.height as int,
        rgb: image.rgb@,
    }
}

pub open spec fn pictures(images: Seq<(Option<String>, Image)>) -> Seq<Picture> {
    images.map_values(|pair: (Option<String>, Image)| picture_of(pair.0, pair.1))
}

/// Blur every frame that can be scaled, and keep its output's name with it.
pub fn blur_frames(frames: &Vec<Frame>, radius: u32) -> (r: Vec<(Option<String>, Image)>)
    requires
        radius <= MAX_RADIUS,
        forall|i: int| 0 <= i < frames@.len() ==> (#[trigger] frames@[i]).wf(),
    ensures
        pictures(r@) == backdrops_of(frames@, radius as int),
        forall|i: int| 0 <= i < r@.len() ==> (#[trigger] r@[i]).1.wf(),
{
    let mut images: Vec<(Option<String>, Image)> = Vec::new();
    let mut i: usize = 0;
    while i < frames.len()
        invariant
            radius <= MAX_RADIUS,
            forall|i: int| 0 <= i < frames@.len() ==> (#[trigger] frames@[i]).wf(),
            i <= frames@.len(),
            pictures(images@) == backdrops_of(frames@.take(i as int), radius as int),
            forall|i: int| 0 <= i < images@.len() ==> (#[trigger] images@[i]).1.wf(),
        decreases frames@.len() - i,
    {
        let frame = &frames[i];
        let ghost before = images@;
        proof {
            let factor = factor_of(frame.width as int, frame.height as int);
            if scalable(*frame, factor) {
                assert(radius as int / factor <= radius) by (nonlinear_arith)
                    requires
                        factor >= 1,
                        radius >= 0,
                ;
            }
            assert(frames@.take(i + 1).drop_last() == frames@.take(i as int));
            assert(frames@.take(i + 1).last() == *frame);
        }
        if let Some(image) = blurred(frame, radius) {
            images.push((frame.connector.clone(), image));
            assert(pictures(images@) =~= pictures(before).push(
                picture_of(frame.connector, image),
            ));
        }
        i += 1;
    }
    assert(frames@.take(i as int) == frames@);
    images
}

// ---------------------------------------------------------------------------
// What the rows are showing
// ---------------------------------------------------------------------------

/// The catalog and what of it the rows are showing.
pub struct State<D> {
    pub catalog: Catalog<D>,
    /// What the launches of each entry are worth.
    pub bonuses: Vec<i32>,
    /// Indices into the catalog's entries, in the order currently displayed.
    pub shown: Vec<usize>,
}

impl<D> State<D> {
    /// Everything shown is in the catalog, and no ranking leaves 32 bits.
    pub open spec fn wf(self) -> bool {
        &&& self.catalog.wf()
        &&& self.bonuses@.len() == self.catalog.entries@.len()
        &&& forall|i: int|
            0 <= i < self.catalog.entries@.len() ==> entry_fits(
                (#[trigger] self.catalog.entries@[i])@,
                self.bonuses@[i],
            )
        &&& forall|k: int|
            0 <= k < self.shown@.len() ==> #[trigger] self.shown@[k] < self.catalog.entries@.len()
    }

    /// Nothing is shown at first.
    pub fn new(catalog: Catalog<D>, bonuses: Vec<i32>) -> (r: Self)
        requires
            catalog.wf(),
            bonuses@.len() == catalog.entries@.len(),
            forall|i: int|
                0 <= i < catalog.entries@.len() ==> entry_fits(
                    (#[trigger] catalog.entries@[i])@,
                    bonuses@[i],
                ),
        ensures
            r.wf(),
            r.catalog == catalog,
            r.bonuses == bonuses,
            r.shown@.len() == 0,
    {
        State { catalog, bonuses, shown: Vec::new() }
    }

    /// Rank for `query` and refill the rows, of which there is one per
    /// displayable line.
    pub fn refresh(&mut self, query: &str, rows: &mut Vec<Option<usize>>) -> (r: Vec<RowUpdate>)
        requires
            old(self).wf(),
        ensures
            final(self).wf(),
            final(self).catalog == old(self).catalog,
            final(self).bonuses == old(self).bonuses,
            is_ranking(
                folded(trimmed(query@)),
                views(old(self).catalog.entries@),
                old(self).bonuses@,
                old(rows)@.len() as int,
                final(self).shown@,
            ),
            final(rows)@.len() == old(rows)@.len(),
            r@.len() == old(rows)@.len(),
            forall|i: int|
                0 <= i < old(rows)@.len() ==> #[trigger] final(rows)@[i] == row_after(
                    final(self).shown@,
                    i,
                ),
            forall|i: int|
                0 <= i < old(rows)@.len() ==> #[trigger] r@[i] == update_of(
                    old(rows)@[i],
                    row_after(final(self).shown@, i),
                ),
    {
        let shown = rank(
            self.catalog.entries.as_slice(),
            self.bonuses.as_slice(),
            query,
            rows.len(),
        );
        proof {
            assert forall|k: int| 0 <= k < shown@.len() implies #[trigger] shown@[k]
                < self.catalog.entries@.len() by {
                assert(crate::rank::is_candidate(
                    folded(trimmed(query@)),
                    views(self.catalog.entries@),
                    self.bonuses@,
                    shown@[k] as int,
                ));
            }
        }
        self.shown = shown;
        update_rows(rows, &self.shown)
    }

    /// The entry at `position` in the displayed list, if there is one.
    pub fn pick(&self, position: usize) -> (r: Option<usize>)
        requires
            self.wf(),
        ensures
            r == row_after(self.shown@, position as int),
            r == (if position < self.shown@.len() {
                Some(self.shown@[position as int])
            } else {
                None
            }),
            r matches Some(index) ==> index < self.catalog.entries@.len() && index
                < self.catalog.targets@.len(),
    {
        if position < self.shown.len() {
            Some(self.shown[position])
        } else {
            None
        }
    }

    /// Count the launch of an entry.
    pub fn launched(&mut self, index: usize, now: u64)
        requires
            old(self).wf(),
            index < old(self).catalog.entries@.len(),
        ensures
            final(self).wf(),
            final(self).catalog.entries == old(self).catalog.entries,
            final(self).catalog.targets == old(self).catalog.targets,
            final(self).bonuses == old(self).bonuses,
            final(self).shown == old(self).shown,
            ({
                let id = old(self).catalog.entries@[index as int].id@;
                let store = old(self).catalog.usage@;
                let count = crate::apps::launches_of(store, id).0;
                final(self).catalog.usage@ == store.insert(
                    id,
                    (
                        if count < u32::MAX {
                            (count + 1) as u32
                        } else {
                            u32::MAX
                        },
                        now,
                    ),
                )
            }),
    {
        let id: String = self.catalog.entries[index].id.clone();
        self.catalog.usage.record(id.as_str(), now);
    }
}

} // verus!
