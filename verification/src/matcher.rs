//! Fuzzy subsequence matcher.
//!
//! Both sides go through [`fold`] first, so a search compares plain lowercase
//! text and never allocates: the caller keeps the folded string and its
//! characters alongside each searchable field, and this module only reads them.

use crate::text::chars_of;
use vstd::prelude::*;

verus! {

/// Longest haystack, in characters, that gets the optimal placement search.
/// Anything longer falls back to the greedy scan: a name that long is a
/// description, and its exact score does not decide the ordering.
pub const DP_LIMIT: usize = 96;

/// Longest needle whose every possible total fits in 32 bits: the first
/// character is worth at most 50, each further one 60, a prefix match 60.
pub const MAX_NEEDLE: usize = 35_791_393;

/// Text prepared for matching: folded once, with its characters alongside.
pub struct Folded {
    pub text: String,
    pub chars: Vec<char>,
}

impl View for Folded {
    type V = Seq<char>;

    open spec fn view(&self) -> Seq<char> {
        self.text@
    }
}

// ---------------------------------------------------------------------------
// Folding
// ---------------------------------------------------------------------------

/// The lowercase mapping of a character, which is one or more characters.
pub uninterp spec fn lowercase(c: char) -> Seq<char>;

/// The lowercase form of an ASCII letter; any other character is itself.
pub open spec fn ascii_lowercase(c: char) -> char {
    if 'A' <= c && c <= 'Z' {
        ((c as u32) + 32) as char
    } else {
        c
    }
}

pub open spec fn is_ascii_char(c: char) -> bool {
    (c as u32) < 128
}

/// The plain spelling of an accented lowercase Latin letter, for the letters
/// of Latin-1 Supplement and Latin Extended-A. `İ` is among them though it is
/// a capital: lowercased it would keep its dot, as a mark behind the `i`.
pub open spec fn plain(c: char) -> Option<Seq<char>> {
    match c {
        'à' | 'á' | 'â' | 'ã' | 'ä' | 'å' | 'ā' | 'ă' | 'ą' => Some(seq!['a']),
        'æ' => Some(seq!['a', 'e']),
        'ç' | 'ć' | 'ĉ' | 'ċ' | 'č' => Some(seq!['c']),
        'ð' | 'ď' | 'đ' => Some(seq!['d']),
        'è' | 'é' | 'ê' | 'ë' | 'ē' | 'ĕ' | 'ė' | 'ę' | 'ě' => Some(seq!['e']),
        'ĝ' | 'ğ' | 'ġ' | 'ģ' => Some(seq!['g']),
        'ĥ' | 'ħ' => Some(seq!['h']),
        'ì' | 'í' | 'î' | 'ï' | 'ĩ' | 'ī' | 'ĭ' | 'į' | 'ı' | 'İ' => Some(
            seq!['i'],
        ),
        'ĵ' => Some(seq!['j']),
        'ķ' => Some(seq!['k']),
        'ĺ' | 'ļ' | 'ľ' | 'ŀ' | 'ł' => Some(seq!['l']),
        'ñ' | 'ń' | 'ņ' | 'ň' | 'ŋ' => Some(seq!['n']),
        'ò' | 'ó' | 'ô' | 'õ' | 'ö' | 'ø' | 'ō' | 'ŏ' | 'ő' => Some(seq!['o']),
        'œ' => Some(seq!['o', 'e']),
        'ŕ' | 'ŗ' | 'ř' => Some(seq!['r']),
        'ś' | 'ŝ' | 'ş' | 'š' => Some(seq!['s']),
        'ß' => Some(seq!['s', 's']),
        'þ' => Some(seq!['t', 'h']),
        'ţ' | 'ť' | 'ŧ' => Some(seq!['t']),
        'ù' | 'ú' | 'û' | 'ü' | 'ũ' | 'ū' | 'ŭ' | 'ů' | 'ű' | 'ų' => Some(seq!['u']),
        'ŵ' => Some(seq!['w']),
        'ý' | 'ÿ' | 'ŷ' => Some(seq!['y']),
        'ź' | 'ż' | 'ž' => Some(seq!['z']),
        _ => None,
    }
}

/// Lowercase text with every accented letter replaced by its plain spelling.
pub open spec fn stripped(lower: Seq<char>) -> Seq<char>
    decreases lower.len(),
{
    if lower.len() == 0 {
        seq![]
    } else {
        stripped(lower.drop_last()) + match plain(lower.last()) {
            Some(spelling) => spelling,
            None => seq![lower.last()],
        }
    }
}

/// What one character folds to: the plain spelling of an accented Latin letter
/// or the ASCII lowercase form of an ASCII character, and of any other its
/// lowercase mapping, stripped of diacritics.
pub open spec fn folded_char(c: char) -> Seq<char> {
    match plain(c) {
        Some(spelling) => spelling,
        None => if is_ascii_char(c) {
            seq![ascii_lowercase(c)]
        } else {
            stripped(lowercase(c))
        },
    }
}

/// `text` lowercased and stripped of diacritics, character by character.
pub open spec fn folded(text: Seq<char>) -> Seq<char>
    decreases text.len(),
{
    if text.len() == 0 {
        seq![]
    } else {
        folded(text.drop_last()) + folded_char(text.last())
    }
}

/// `char::to_lowercase`, with what its iterator yields collected. Claimed of
/// it: the result depends on the character alone, it is one or more
/// characters, and an ASCII character gives its ASCII lowercase form.
#[verifier::external_body]
fn to_lowercase(c: char) -> (lower: Vec<char>)
    ensures
        lower@ == lowercase(c),
        lower@.len() >= 1,
        is_ascii_char(c) ==> lower@ == seq![ascii_lowercase(c)],
{
    c.to_lowercase().collect()
}

/// Latin-1 Supplement and Latin Extended-A, which is every accented letter a
/// `.desktop` file realistically carries. A few fold to two characters, which
/// is why this hands back a `&str` rather than a `char`. All are lowercase but
/// for `İ`, whose dot would outlast its lowercase mapping.
pub fn fold_char(c: char) -> (r: Option<&'static str>)
    ensures
        r is Some <==> plain(c) is Some,
        r is Some ==> r.unwrap()@ == plain(c).unwrap(),
{
    proof {
        reveal_strlit("a");
        reveal_strlit("ae");
        reveal_strlit("c");
        reveal_strlit("d");
        reveal_strlit("e");
        reveal_strlit("g");
        reveal_strlit("h");
        reveal_strlit("i");
        reveal_strlit("j");
        reveal_strlit("k");
        reveal_strlit("l");
        reveal_strlit("n");
        reveal_strlit("o");
        reveal_strlit("oe");
        reveal_strlit("r");
        reveal_strlit("s");
        reveal_strlit("ss");
        reveal_strlit("th");
        reveal_strlit("t");
        reveal_strlit("u");
        reveal_strlit("w");
        reveal_strlit("y");
        reveal_strlit("z");
    }
    match c {
        'à' | 'á' | 'â' | 'ã' | 'ä' | 'å' | 'ā' | 'ă' | 'ą' => Some("a"),
        'æ' => Some("ae"),
        'ç' | 'ć' | 'ĉ' | 'ċ' | 'č' => Some("c"),
        'ð' | 'ď' | 'đ' => Some("d"),
        'è' | 'é' | 'ê' | 'ë' | 'ē' | 'ĕ' | 'ė' | 'ę' | 'ě' => Some("e"),
        'ĝ' | 'ğ' | 'ġ' | 'ģ' => Some("g"),
        'ĥ' | 'ħ' => Some("h"),
        'ì' | 'í' | 'î' | 'ï' | 'ĩ' | 'ī' | 'ĭ' | 'į' | 'ı' | 'İ' => Some("i"),
        'ĵ' => Some("j"),
        'ķ' => Some("k"),
        'ĺ' | 'ļ' | 'ľ' | 'ŀ' | 'ł' => Some("l"),
        'ñ' | 'ń' | 'ņ' | 'ň' | 'ŋ' => Some("n"),
        'ò' | 'ó' | 'ô' | 'õ' | 'ö' | 'ø' | 'ō' | 'ŏ' | 'ő' => Some("o"),
        'œ' => Some("oe"),
        'ŕ' | 'ŗ' | 'ř' => Some("r"),
        'ś' | 'ŝ' | 'ş' | 'š' => Some("s"),
        'ß' => Some("ss"),
        'þ' => Some("th"),
        'ţ' | 'ť' | 'ŧ' => Some("t"),
        'ù' | 'ú' | 'û' | 'ü' | 'ũ' | 'ū' | 'ŭ' | 'ů' | 'ű' | 'ų' => Some("u"),
        'ŵ' => Some("w"),
        'ý' | 'ÿ' | 'ŷ' => Some("y"),
        'ź' | 'ż' | 'ž' => Some("z"),
        _ => None,
    }
}

/// Append `lower`, what a character lowercases to, with the diacritics
/// stripped.
pub fn push_stripped(out: &mut String, lower: &Vec<char>)
    ensures
        final(out)@ == old(out)@ + stripped(lower@),
{
    let ghost start = out@;
    let mut j: usize = 0;
    while j < lower.len()
        invariant
            j <= lower@.len(),
            out@ == start + stripped(lower@.take(j as int)),
        decreases lower@.len() - j,
    {
        let c = lower[j];
        match fold_char(c) {
            Some(spelling) => out.append(spelling),
            None => out.push(c),
        }
        proof {
            let next = lower@.take(j + 1);
            assert(next.drop_last() == lower@.take(j as int));
            assert(out@ == start + stripped(next));
        }
        j += 1;
    }
    assert(lower@.take(lower@.len() as int) == lower@);
}

/// Lowercase `text` and strip the diacritics off the Latin letters, so `cafe`
/// finds `Café` and `okular` finds `Okular`. Characters outside the folded
/// range are passed through lowercased.
pub fn fold(text: &str) -> (out: String)
    ensures
        out@ == folded(text@),
        out@.len() == 0 <==> text@.len() == 0,
        (forall|i: int| 0 <= i < text@.len() ==> is_ascii_char(#[trigger] text@[i]))
            ==> out@ == text@.map_values(|c: char| ascii_lowercase(c)),
{
    let chars = chars_of(text);
    let mut out = String::new();
    let mut i: usize = 0;
    assert(text@.take(0).map_values(|c: char| ascii_lowercase(c)) == Seq::<char>::empty());
    while i < chars.len()
        invariant
            chars@ == text@,
            i <= chars@.len(),
            out@ == folded(text@.take(i as int)),
            i > 0 ==> out@.len() > 0,
            (forall|k: int| 0 <= k < i ==> is_ascii_char(#[trigger] text@[k])) ==> out@
                == text@.take(i as int).map_values(|c: char| ascii_lowercase(c)),
        decreases chars@.len() - i,
    {
        let c = chars[i];
        let ghost begun = out@;
        match fold_char(c) {
            Some(spelling) => out.append(spelling),
            None => {
                let lower = to_lowercase(c);
                push_stripped(&mut out, &lower);
                proof {
                    reveal_with_fuel(stripped, 2);
                    assert(lower@.drop_last().push(lower@.last()) == lower@);
                    if is_ascii_char(c) {
                        let l = ascii_lowercase(c);
                        assert(lower@ == seq![l]);
                        assert(lower@.drop_last() == Seq::<char>::empty());
                        assert(stripped(lower@) == seq![l]);
                    }
                }
            },
        }
        proof {
            let next = text@.take(i + 1);
            assert(next.drop_last() == text@.take(i as int));
            assert(out@ == begun + folded_char(c));
            if is_ascii_char(c) {
                assert(next.map_values(|c: char| ascii_lowercase(c)) == text@.take(
                    i as int,
                ).map_values(|c: char| ascii_lowercase(c)).push(ascii_lowercase(c)));
            }
        }
        i += 1;
    }
    assert(text@.take(text@.len() as int) == text@);
    out
}

impl Folded {
    /// The two forms agree.
    pub open spec fn wf(self) -> bool {
        self.chars@ == self.text@
    }

    pub fn new(raw: &str) -> (r: Self)
        ensures
            r.wf(),
            r@ == folded(raw@),
            r@.len() == 0 <==> raw@.len() == 0,
            (forall|i: int| 0 <= i < raw@.len() ==> is_ascii_char(#[trigger] raw@[i]))
                ==> r@ == raw@.map_values(|c: char| ascii_lowercase(c)),
    {
        let text = fold(raw);
        let chars = chars_of(&text);
        Folded { text, chars }
    }

    pub fn is_empty(&self) -> (r: bool)
        ensures
            r == (self.chars@.len() == 0),
    {
        self.chars.len() == 0
    }
}

// ---------------------------------------------------------------------------
// What a match is worth
// ---------------------------------------------------------------------------

/// Whether `hay[i]` starts a word: it opens the text or follows a separator.
pub open spec fn starts_word(hay: Seq<char>, i: int) -> bool {
    i == 0 || hay[i - 1] == ' ' || hay[i - 1] == '-' || hay[i - 1] == '_' || hay[i - 1] == '.'
        || hay[i - 1] == '/' || hay[i - 1] == ':'
}

/// What landing a needle character on `hay[i]` is worth by itself.
pub open spec fn place_worth(hay: Seq<char>, i: int) -> int {
    if i == 0 {
        50
    } else if starts_word(hay, i) {
        40
    } else {
        16
    }
}

/// What landing the first needle character on `hay[i]` is worth: a hit inside
/// a word costs 30, and every skipped character costs 2, up to 24 of them.
pub open spec fn open_worth(hay: Seq<char>, i: int) -> int {
    place_worth(hay, i) - (if starts_word(hay, i) {
        0int
    } else {
        30
    }) - 2 * (if i < 24 {
        i
    } else {
        24
    })
}

/// A way of placing the needle in the haystack: one position per needle
/// character, strictly increasing, each holding that character.
pub open spec fn places(needle: Seq<char>, hay: Seq<char>, at: Seq<int>) -> bool {
    &&& at.len() == needle.len()
    &&& forall|k: int| 0 <= k < at.len() ==> 0 <= #[trigger] at[k] < hay.len()
    &&& forall|k: int| 0 <= k < at.len() ==> hay[#[trigger] at[k]] == needle[k]
    &&& forall|j: int, k: int| 0 <= j < k < at.len() ==> at[j] < at[k]
}

/// The bonus for a position that directly follows its predecessor.
pub open spec fn run_bonus(before: int, i: int) -> int {
    if i == before + 1 {
        20
    } else {
        0
    }
}

/// What a placement is worth: the opening, then each further character with
/// its run bonus.
pub open spec fn worth(hay: Seq<char>, at: Seq<int>) -> int
    decreases at.len(),
{
    if at.len() == 0 {
        0
    } else if at.len() == 1 {
        open_worth(hay, at[0])
    } else {
        worth(hay, at.drop_last()) + place_worth(hay, at.last()) + run_bonus(
            at[at.len() - 2],
            at.last(),
        )
    }
}

/// The needle's characters occur in the haystack, in order.
pub open spec fn subsequence(needle: Seq<char>, hay: Seq<char>) -> bool {
    exists|at: Seq<int>| places(needle, hay, at)
}

/// `total` is the largest worth over every way of placing the needle.
pub open spec fn is_best(needle: Seq<char>, hay: Seq<char>, total: int) -> bool {
    &&& exists|at: Seq<int>| #[trigger] places(needle, hay, at) && worth(hay, at) == total
    &&& forall|at: Seq<int>| #[trigger] places(needle, hay, at) ==> worth(hay, at) <= total
}

/// The placement that takes, for each needle character, its first occurrence
/// after the one before.
pub open spec fn is_leftmost(needle: Seq<char>, hay: Seq<char>, at: Seq<int>) -> bool {
    &&& places(needle, hay, at)
    &&& forall|k: int, i: int|
        #![trigger at[k], hay[i]]
        0 <= k < at.len() && (if k == 0 {
            0
        } else {
            at[k - 1] + 1
        }) <= i < at[k] ==> hay[i] != needle[k]
}

/// The needle occurs in the haystack without gaps.
pub open spec fn occurs(needle: Seq<char>, hay: Seq<char>) -> bool {
    exists|i: int| 0 <= i <= hay.len() - needle.len() && #[trigger] occurs_at(needle, hay, i)
}

pub open spec fn occurs_at(needle: Seq<char>, hay: Seq<char>, i: int) -> bool {
    hay.subrange(i, i + needle.len()) == needle
}

/// What the placed characters are worth together: the best placement in a
/// haystack of at most [`DP_LIMIT`] characters, the leftmost one in a longer.
pub open spec fn chain_total(needle: Seq<char>, hay: Seq<char>) -> int {
    if hay.len() <= DP_LIMIT {
        choose|total: int| is_best(needle, hay, total)
    } else {
        worth(hay, choose|at: Seq<int>| is_leftmost(needle, hay, at))
    }
}

/// The score of a haystack: nothing when the needle is not a subsequence of
/// it, otherwise what the placed characters are worth, 60 more for a prefix or
/// 40 more for an occurrence further along, 1 less for every ten characters.
pub open spec fn score_of(needle: Seq<char>, hay: Seq<char>) -> Option<int> {
    if needle.len() == 0 {
        Some(0)
    } else if !subsequence(needle, hay) {
        None
    } else {
        Some(
            chain_total(needle, hay) + (if occurs_at(needle, hay, 0) && needle.len() <= hay.len() {
                60int
            } else if occurs(needle, hay) {
                40
            } else {
                0
            }) - hay.len() as int / 10,
        )
    }
}

/// The lengths for which no total can leave 32 bits.
pub open spec fn scorable(needle: nat, hay: nat) -> bool {
    hay <= MAX_NEEDLE || (hay <= i32::MAX && needle <= MAX_NEEDLE)
}

// ---------------------------------------------------------------------------
// Facts about placements
// ---------------------------------------------------------------------------

proof fn lemma_worth_bounds(needle: Seq<char>, hay: Seq<char>, at: Seq<int>)
    requires
        places(needle, hay, at),
        at.len() >= 1,
    ensures
        -62 <= worth(hay, at) <= 60 * at.len() - 10,
    decreases at.len(),
{
    if at.len() > 1 {
        let before = at.drop_last();
        assert(places(needle.drop_last(), hay, before));
        lemma_worth_bounds(needle.drop_last(), hay, before);
        assert(at[at.len() - 2] < at.last());
    }
}

/// A placement is the placement of all but the last character, extended.
proof fn lemma_places_push(needle: Seq<char>, hay: Seq<char>, at: Seq<int>, c: char, i: int)
    requires
        places(needle, hay, at),
        at.len() >= 1,
        at.last() < i < hay.len(),
        hay[i] == c,
    ensures
        places(needle.push(c), hay, at.push(i)),
        at.push(i).last() == i,
        worth(hay, at.push(i)) == worth(hay, at) + place_worth(hay, i) + run_bonus(at.last(), i),
{
    assert(at.push(i).drop_last() == at);
}

proof fn lemma_places_pop(needle: Seq<char>, hay: Seq<char>, at: Seq<int>)
    requires
        places(needle, hay, at),
        at.len() >= 2,
    ensures
        places(needle.drop_last(), hay, at.drop_last()),
        0 <= at.drop_last().last() < at.last() < hay.len(),
        hay[at.last()] == needle.last(),
        worth(hay, at) == worth(hay, at.drop_last()) + place_worth(hay, at.last()) + run_bonus(
            at.drop_last().last(),
            at.last(),
        ),
{
}

/// The leftmost placement of a prefix of the needle is nowhere to the right of
/// any other placement.
proof fn lemma_leftmost_ahead(
    needle: Seq<char>,
    hay: Seq<char>,
    at: Seq<int>,
    other: Seq<int>,
    k: int,
)
    requires
        at.len() <= needle.len(),
        is_leftmost(needle.take(at.len() as int), hay, at),
        places(needle, hay, other),
        0 <= k < at.len(),
    ensures
        at[k] <= other[k],
    decreases k,
{
    if k > 0 {
        lemma_leftmost_ahead(needle, hay, at, other, k - 1);
        assert(other[k - 1] < other[k]);
    }
    if other[k] < at[k] {
        assert(hay[other[k]] == needle[k]);
        assert(needle.take(at.len() as int)[k] == needle[k]);
    }
}

/// There is only one leftmost placement.
pub proof fn leftmost_is_unique(needle: Seq<char>, hay: Seq<char>, a: Seq<int>, b: Seq<int>)
    requires
        is_leftmost(needle, hay, a),
        is_leftmost(needle, hay, b),
    ensures
        a == b,
{
    assert(needle.take(needle.len() as int) == needle);
    assert forall|k: int| 0 <= k < a.len() implies a[k] == b[k] by {
        lemma_leftmost_ahead(needle, hay, a, b, k);
        lemma_leftmost_ahead(needle, hay, b, a, k);
    }
    assert(a =~= b);
}

/// A matched character takes the same bytes on both sides, so a needle with
/// more bytes than the haystack is not a subsequence of it.
proof fn lemma_places_bytes(needle: Seq<char>, hay: Seq<char>, at: Seq<int>)
    requires
        places(needle, hay, at),
    ensures
        vstd::utf8::encode_utf8(needle).len() <= vstd::utf8::encode_utf8(hay).len(),
        needle.len() <= hay.len(),
    decreases hay.len(),
{
    if needle.len() > 0 {
        assert(0 <= at[0] < hay.len());
        let rest = hay.drop_first();
        if at[0] == 0 {
            let moved = Seq::new((at.len() - 1) as nat, |k: int| at[k + 1] - 1);
            assert(places(needle.drop_first(), rest, moved)) by {
                assert forall|k: int| 0 <= k < moved.len() implies 0 <= #[trigger] moved[k]
                    < rest.len() && rest[moved[k]] == needle.drop_first()[k] by {
                    assert(at[0] < at[k + 1] < hay.len());
                    assert(hay[at[k + 1]] == needle[k + 1]);
                }
            }
            lemma_places_bytes(needle.drop_first(), rest, moved);
            assert(hay[0] == needle[0]);
        } else {
            let moved = Seq::new(at.len(), |k: int| at[k] - 1);
            assert(places(needle, rest, moved)) by {
                assert forall|k: int| 0 <= k < moved.len() implies 0 <= #[trigger] moved[k]
                    < rest.len() && rest[moved[k]] == needle[k] by {
                    assert(k > 0 ==> at[0] < at[k]);
                    assert(hay[at[k]] == needle[k]);
                }
            }
            lemma_places_bytes(needle, rest, moved);
        }
    }
}

// ---------------------------------------------------------------------------
// Scoring
// ---------------------------------------------------------------------------

pub fn boundary(hay: &[char], i: usize) -> (r: bool)
    requires
        i < hay@.len(),
    ensures
        r == starts_word(hay@, i as int),
{
    if i == 0 {
        return true;
    }
    let before = hay[i - 1];
    before == ' ' || before == '-' || before == '_' || before == '.' || before == '/' || before
        == ':'
}

/// What landing a needle character on `hay[i]` is worth by itself.
pub fn placement(hay: &[char], i: usize) -> (r: i32)
    requires
        i < hay@.len(),
    ensures
        r == place_worth(hay@, i as int),
{
    if i == 0 {
        50
    } else if boundary(hay, i) {
        40
    } else {
        16
    }
}

/// Everything that depends on where the *first* needle character lands: the
/// run-up that was skipped to reach it, and whether it started a word.
pub fn opening(hay: &[char], i: usize) -> (r: i32)
    requires
        i < hay@.len(),
    ensures
        r == open_worth(hay@, i as int),
{
    let mut s: i32 = placement(hay, i);
    if !boundary(hay, i) {
        // "co" should find Chromium before it finds Avahi Zeroconf Browser.
        s -= 30;
    }
    let skipped: i32 = if i < 24 {
        i as i32
    } else {
        24
    };
    s - skipped * 2
}

/// Take the first occurrence of each needle character and score what that
/// gives. Serves two purposes: it is the exact subsequence test every call
/// runs first, and it is the scoring fallback for haystacks past [`DP_LIMIT`].
pub fn greedy_chain(needle: &[char], hay: &[char]) -> (r: Option<i32>)
    requires
        60 * needle@.len() - 10 <= i32::MAX || 60 * hay@.len() - 10 <= i32::MAX,
    ensures
        r is Some <==> subsequence(needle@, hay@),
        r is Some ==> forall|at: Seq<int>|
            is_leftmost(needle@, hay@, at) ==> r.unwrap() == #[trigger] worth(hay@, at),
        r is Some ==> exists|at: Seq<int>| is_leftmost(needle@, hay@, at),
{
    let mut total: i32 = 0;
    let mut ni: usize = 0;
    let mut i: usize = 0;
    let mut last: usize = 0;
    let ghost mut at: Seq<int> = seq![];
    while i < hay.len() && ni < needle.len()
        invariant
            60 * needle@.len() - 10 <= i32::MAX || 60 * hay@.len() - 10 <= i32::MAX,
            i <= hay@.len(),
            ni <= needle@.len(),
            ni <= i,
            at.len() == ni,
            is_leftmost(needle@.take(ni as int), hay@, at),
            total == worth(hay@, at),
            -62 <= total,
            total <= 60 * ni,
            ni > 0 ==> at.last() == last && last < i,
            ni < needle@.len() ==> forall|j: int|
                (if ni == 0 {
                    0
                } else {
                    last + 1
                }) <= j < i ==> #[trigger] hay@[j] != needle@[ni as int],
        decreases hay@.len() - i,
    {
        if hay[i] == needle[ni] {
            let ghost before = at;
            let gained: i32 = if ni == 0 {
                opening(hay, i)
            } else if last == i - 1 {
                placement(hay, i) + 20
            } else {
                placement(hay, i)
            };
            proof {
                at = before.push(i as int);
                let longer = needle@.take(ni + 1);
                assert(longer == needle@.take(ni as int).push(needle@[ni as int]));
                if ni == 0 {
                    assert(places(longer, hay@, at));
                    assert(worth(hay@, at) == open_worth(hay@, i as int));
                } else {
                    lemma_places_push(
                        needle@.take(ni as int),
                        hay@,
                        before,
                        needle@[ni as int],
                        i as int,
                    );
                }
                lemma_worth_bounds(longer, hay@, at);
                assert(is_leftmost(longer, hay@, at));
            }
            total += gained;
            last = i;
            ni += 1;
        }
        i += 1;
    }
    proof {
        if ni == needle@.len() {
            assert(needle@.take(ni as int) == needle@);
            assert forall|other: Seq<int>| is_leftmost(needle@, hay@, other) implies total
                == #[trigger] worth(hay@, other) by {
                leftmost_is_unique(needle@, hay@, at, other);
            }
        } else {
            assert forall|other: Seq<int>| !places(needle@, hay@, other) by {
                if places(needle@, hay@, other) {
                    if ni > 0 {
                        lemma_leftmost_ahead(needle@, hay@, at, other, ni - 1);
                        assert(other[ni - 1] < other[ni as int]);
                    }
                    assert(0 <= other[ni as int] < hay@.len());
                    assert(hay@[other[ni as int]] == needle@[ni as int]);
                }
            }
        }
    }
    if ni == needle.len() {
        Some(total)
    } else {
        None
    }
}

/// What one cell of the placement table holds: the best worth over the
/// placements of `needle` that end at `hay[i]`, or `i32::MIN` without any.
spec fn settled(cell: int, needle: Seq<char>, hay: Seq<char>, i: int) -> bool {
    if cell == i32::MIN {
        forall|at: Seq<int>| #[trigger] places(needle, hay, at) ==> at.last() != i
    } else {
        &&& exists|at: Seq<int>| #[trigger]
            places(needle, hay, at) && at.last() == i && worth(hay, at) == cell
        &&& forall|at: Seq<int>| #[trigger]
            places(needle, hay, at) && at.last() == i ==> worth(hay, at) <= cell
    }
}

proof fn lemma_settled_bounds(cell: int, needle: Seq<char>, hay: Seq<char>, i: int)
    requires
        settled(cell, needle, hay, i),
        needle.len() >= 1,
        cell != i32::MIN,
    ensures
        -62 <= cell <= 60 * needle.len() - 10,
{
    let at = choose|at: Seq<int>| #[trigger]
        places(needle, hay, at) && at.last() == i && worth(hay, at) == cell;
    lemma_worth_bounds(needle, hay, at);
}

/// The first row of the table.
proof fn lemma_settled_first(c: char, hay: Seq<char>, i: int, cell: int)
    requires
        0 <= i < hay.len(),
        cell == (if hay[i] == c {
            open_worth(hay, i)
        } else {
            i32::MIN as int
        }),
    ensures
        settled(cell, seq![c], hay, i),
{
    if hay[i] == c {
        let at = seq![i];
        assert(places(seq![c], hay, at) && at.last() == i);
        assert(worth(hay, at) == cell);
        assert forall|other: Seq<int>| #[trigger]
            places(seq![c], hay, other) && other.last() == i implies worth(hay, other) <= cell by {
            assert(other =~= at);
        }
    } else {
        assert forall|at: Seq<int>| #[trigger] places(seq![c], hay, at) implies at.last() != i by {
            assert(hay[at[0]] == c);
        }
    }
}

/// A cell with nothing to extend: another character stands there, or no
/// placement of the characters before ends further left.
proof fn lemma_settled_none(needle: Seq<char>, c: char, hay: Seq<char>, i: int, row: Seq<i32>)
    requires
        needle.len() >= 1,
        0 <= i < hay.len() <= row.len(),
        forall|j: int| 0 <= j < hay.len() ==> settled(#[trigger] row[j] as int, needle, hay, j),
        hay[i] != c || forall|j: int| 0 <= j < i ==> #[trigger] row[j] == i32::MIN,
    ensures
        settled(i32::MIN as int, needle.push(c), hay, i),
{
    assert forall|at: Seq<int>| #[trigger] places(needle.push(c), hay, at) implies at.last()
        != i by {
        lemma_places_pop(needle.push(c), hay, at);
        assert(needle.push(c).drop_last() == needle);
        let j = at.drop_last().last();
        assert(settled(row[j] as int, needle, hay, j));
    }
}

/// A cell that extends the best placement of the characters before.
proof fn lemma_settled_some(
    needle: Seq<char>,
    c: char,
    hay: Seq<char>,
    i: int,
    row: Seq<i32>,
    from: int,
    best: int,
)
    requires
        needle.len() >= 1,
        0 <= i < hay.len() <= row.len(),
        hay[i] == c,
        forall|j: int| 0 <= j < hay.len() ==> settled(#[trigger] row[j] as int, needle, hay, j),
        0 <= best < i,
        row[best] != i32::MIN,
        from == row[best] + run_bonus(best, i),
        forall|j: int| 0 <= j < i && #[trigger] row[j] != i32::MIN ==> row[j] + run_bonus(j, i) <= from,
    ensures
        settled(from + place_worth(hay, i), needle.push(c), hay, i),
{
    let cell = from + place_worth(hay, i);
    assert(settled(row[best] as int, needle, hay, best));
    lemma_settled_bounds(row[best] as int, needle, hay, best);
    let at = choose|at: Seq<int>| #[trigger]
        places(needle, hay, at) && at.last() == best && worth(hay, at) == row[best];
    lemma_places_push(needle, hay, at, c, i);
    assert(places(needle.push(c), hay, at.push(i)) && at.push(i).last() == i && worth(
        hay,
        at.push(i),
    ) == cell);
    assert forall|other: Seq<int>| #[trigger]
        places(needle.push(c), hay, other) && other.last() == i implies worth(hay, other)
        <= cell by {
        lemma_places_pop(needle.push(c), hay, other);
        assert(needle.push(c).drop_last() == needle);
        let j = other.drop_last().last();
        assert(settled(row[j] as int, needle, hay, j));
        assert(row[j] != i32::MIN);
    }
}

/// Best total over every way of placing the needle in the haystack.
///
/// A greedy left-to-right scan takes the first occurrence of each character,
/// which loses a contiguous run further along: `ap` against `a app` would pin
/// `a` at 0 and never find `ap` at 2. One row of the table per needle
/// character, one column per haystack character, so it stays linear in the
/// product and the haystack is capped at [`DP_LIMIT`].
///
/// Only reached once `greedy_chain` has established that the needle *is* a
/// subsequence of the haystack, so some placement always exists.
pub fn best_chain(needle: &[char], hay: &[char]) -> (r: i32)
    requires
        needle@.len() >= 1,
        hay@.len() <= DP_LIMIT,
        subsequence(needle@, hay@),
    ensures
        is_best(needle@, hay@, r as int),
{
    let width: usize = hay.len();
    let mut prev: [i32; 96] = [i32::MIN; 96];
    let mut cur: [i32; 96] = [i32::MIN; 96];
    proof {
        let at = choose|at: Seq<int>| places(needle@, hay@, at);
        lemma_places_bytes(needle@, hay@, at);
    }

    let mut i: usize = 0;
    while i < width
        invariant
            i <= width == hay@.len() <= 96,
            needle@.len() >= 1,
            forall|j: int| 0 <= j < i ==> settled(#[trigger] prev[j] as int, seq![needle@[0]], hay@, j),
            forall|j: int| i <= j < 96 ==> #[trigger] prev[j] == i32::MIN,
        decreases width - i,
    {
        if hay[i] == needle[0] {
            prev[i] = opening(hay, i);
        }
        proof {
            lemma_settled_first(needle@[0], hay@, i as int, prev[i as int] as int);
        }
        i += 1;
    }
    assert(seq![needle@[0]] == needle@.take(1));

    let mut k: usize = 1;
    while k < needle.len()
        invariant
            width == hay@.len() <= 96,
            1 <= k <= needle@.len() <= 96,
            forall|j: int|
                0 <= j < width ==> settled(#[trigger] prev[j] as int, needle@.take(k as int), hay@, j),
        decreases needle@.len() - k,
    {
        let wanted = needle[k];
        let ghost before = needle@.take(k as int);
        let mut i: usize = 0;
        // Best predecessor strictly before the previous column, which is the
        // one case that does not earn the adjacency bonus.
        let mut detached: i32 = i32::MIN;
        let ghost mut detached_at: int = 0;
        while i < width
            invariant
                i <= width == hay@.len() <= 96,
                1 <= k < needle@.len() <= 96,
                wanted == needle@[k as int],
                before == needle@.take(k as int),
                forall|j: int| 0 <= j < width ==> settled(#[trigger] prev[j] as int, before, hay@, j),
                forall|j: int|
                    0 <= j < i ==> settled(#[trigger] cur[j] as int, before.push(wanted), hay@, j),
                forall|j: int| 0 <= j < i - 2 ==> #[trigger] prev[j] <= detached,
                detached != i32::MIN ==> 0 <= detached_at < i - 2 && prev[detached_at] == detached,
            decreases width - i,
        {
            if i >= 2 && prev[i - 2] > detached {
                detached = prev[i - 2];
                proof {
                    detached_at = i - 2;
                }
            }
            proof {
                assert forall|j: int| 0 <= j < width && #[trigger] prev[j] != i32::MIN implies -62
                    <= prev[j] <= 60 * k - 10 by {
                    lemma_settled_bounds(prev[j] as int, before, hay@, j);
                }
            }
            cur[i] = i32::MIN;
            if i >= 1 && hay[i] == wanted {
                let adjacent: i32 = if prev[i - 1] == i32::MIN {
                    i32::MIN
                } else {
                    prev[i - 1] + 20
                };
                let from: i32 = if detached > adjacent {
                    detached
                } else {
                    adjacent
                };
                if from == i32::MIN {
                    proof {
                        lemma_settled_none(before, wanted, hay@, i as int, prev@);
                    }
                } else {
                    cur[i] = from + placement(hay, i);
                    proof {
                        let best = if detached > adjacent {
                            detached_at
                        } else {
                            i - 1
                        };
                        lemma_settled_some(
                            before,
                            wanted,
                            hay@,
                            i as int,
                            prev@,
                            from as int,
                            best,
                        );
                    }
                }
            } else {
                proof {
                    lemma_settled_none(before, wanted, hay@, i as int, prev@);
                }
            }
            i += 1;
        }
        std::mem::swap(&mut prev, &mut cur);
        assert(before.push(wanted) == needle@.take(k + 1));
        k += 1;
    }
    assert(needle@.take(k as int) == needle@);

    let mut best: i32 = i32::MIN;
    let ghost mut best_at: int = 0;
    let mut i: usize = 0;
    while i < width
        invariant
            i <= width == hay@.len() <= 96,
            forall|j: int| 0 <= j < i ==> #[trigger] prev[j] <= best,
            best != i32::MIN ==> 0 <= best_at < i && prev[best_at] == best,
        decreases width - i,
    {
        if prev[i] > best {
            best = prev[i];
            proof {
                best_at = i as int;
            }
        }
        i += 1;
    }
    proof {
        assert forall|at: Seq<int>| #[trigger] places(needle@, hay@, at) implies worth(hay@, at)
            <= best && best != i32::MIN by {
            let j = at.last();
            assert(settled(prev[j] as int, needle@, hay@, j));
        }
        let at = choose|at: Seq<int>| places(needle@, hay@, at);
        assert(best != i32::MIN);
        assert(settled(prev[best_at] as int, needle@, hay@, best_at));
    }
    best
}

/// The best total is determined by the needle and the haystack.
pub proof fn best_is_unique(needle: Seq<char>, hay: Seq<char>, a: int, b: int)
    requires
        is_best(needle, hay, a),
        is_best(needle, hay, b),
    ensures
        a == b,
{
}

/// The search for the best placement never gives less than the scan for the
/// leftmost one.
pub proof fn best_is_no_worse_than_leftmost(
    needle: Seq<char>,
    hay: Seq<char>,
    total: int,
    at: Seq<int>,
)
    requires
        is_best(needle, hay, total),
        is_leftmost(needle, hay, at),
    ensures
        worth(hay, at) <= total,
{
}

/// A placement holds the needle's characters, one after the other, at
/// positions of the haystack that go up.
pub proof fn placement_holds_the_needle(needle: Seq<char>, hay: Seq<char>, at: Seq<int>)
    ensures
        places(needle, hay, at) <==> {
            &&& at.len() == needle.len()
            &&& forall|k: int|
                0 <= k < needle.len() ==> 0 <= #[trigger] at[k] < hay.len() && hay[at[k]]
                    == needle[k]
            &&& forall|j: int, k: int|
                0 <= j < k < needle.len() ==> #[trigger] at[j] < #[trigger] at[k]
        },
{
}

/// A needle matches wherever its characters stand in order, however many there
/// are and whatever stands between them, and nowhere else.
pub proof fn found_iff_its_characters_stand_in_order(needle: Seq<char>, hay: Seq<char>)
    requires
        needle.len() > 0,
    ensures
        score_of(needle, hay) is Some <==> exists|at: Seq<int>| #[trigger] places(needle, hay, at),
{
}

/// A match survives whatever is put before, behind or between the characters
/// of the haystack: `kept` says where each character of `hay` stands in
/// `longer`.
pub proof fn more_text_keeps_a_match(
    needle: Seq<char>,
    hay: Seq<char>,
    longer: Seq<char>,
    kept: Seq<int>,
)
    requires
        places(hay, longer, kept),
        score_of(needle, hay) is Some,
    ensures
        score_of(needle, longer) is Some,
{
    if needle.len() > 0 {
        let at = choose|at: Seq<int>| places(needle, hay, at);
        let moved = Seq::new(needle.len(), |k: int| kept[at[k]]);
        assert forall|k: int| 0 <= k < moved.len() implies 0 <= #[trigger] moved[k] < longer.len()
            && longer[moved[k]] == needle[k] by {
            assert(0 <= at[k] < hay.len());
            assert(hay[at[k]] == needle[k]);
        }
        assert forall|j: int, k: int| 0 <= j < k < moved.len() implies moved[j] < moved[k] by {
            assert(at[j] < at[k]);
        }
        assert(places(needle, longer, moved));
    }
}

/// What the first placed character is worth: 50 at the start of the text, else
/// 40 where it opens a word and -14 where it does not, and 2 less for each
/// of the first 24 characters in front of it.
pub proof fn first_character_is_worth(hay: Seq<char>, i: int)
    requires
        0 <= i < hay.len(),
    ensures
        worth(hay, seq![i]) == (if i == 0 {
            50int
        } else if " -_./:"@.contains(hay[i - 1]) {
            40
        } else {
            -14
        }) - 2 * (if i < 24 {
            i
        } else {
            24
        }),
{
    lemma_separators(hay, i);
}

/// What each further character adds: 40 where it opens a word, else 16, and 20
/// more right behind the one before.
pub proof fn next_character_is_worth(hay: Seq<char>, at: Seq<int>, i: int)
    requires
        at.len() >= 1,
        0 <= at.last() < i < hay.len(),
    ensures
        worth(hay, at.push(i)) - worth(hay, at) == (if " -_./:"@.contains(hay[i - 1]) {
            40int
        } else {
            16
        }) + (if i == at.last() + 1 {
            20int
        } else {
            0
        }),
{
    lemma_separators(hay, i);
    assert(at.push(i).drop_last() == at);
}

proof fn lemma_separators(hay: Seq<char>, i: int)
    requires
        0 <= i < hay.len(),
    ensures
        i > 0 ==> (starts_word(hay, i) <==> " -_./:"@.contains(hay[i - 1])),
{
    reveal_strlit(" -_./:");
    let marks = " -_./:"@;
    if i > 0 {
        let c = hay[i - 1];
        assert(marks[0] == ' ' && marks[1] == '-' && marks[2] == '_' && marks[3] == '.' && marks[4]
            == '/' && marks[5] == ':' && marks.len() == 6);
        if marks.contains(c) {
            let k = choose|k: int| 0 <= k < marks.len() && marks[k] == c;
            assert(k == 0 || k == 1 || k == 2 || k == 3 || k == 4 || k == 5);
        }
        if starts_word(hay, i) {
            assert(marks.contains(marks[0]) && marks.contains(marks[1]) && marks.contains(marks[2])
                && marks.contains(marks[3]) && marks.contains(marks[4]) && marks.contains(marks[5]));
        }
    }
}

/// Where a needle can be placed, one placement is worth the most.
proof fn lemma_best_from(needle: Seq<char>, hay: Seq<char>, at: Seq<int>)
    requires
        needle.len() >= 1,
        places(needle, hay, at),
    ensures
        exists|total: int| is_best(needle, hay, total),
    decreases 60 * needle.len() - worth(hay, at),
{
    lemma_worth_bounds(needle, hay, at);
    if forall|other: Seq<int>| #[trigger]
        places(needle, hay, other) ==> worth(hay, other) <= worth(hay, at) {
        assert(is_best(needle, hay, worth(hay, at)));
    } else {
        let other = choose|other: Seq<int>| #[trigger]
            places(needle, hay, other) && worth(hay, other) > worth(hay, at);
        lemma_worth_bounds(needle, hay, other);
        lemma_best_from(needle, hay, other);
    }
}

/// The first place from `from` on that holds `c`, at `to` at the latest.
proof fn lemma_first_place(hay: Seq<char>, c: char, from: int, to: int) -> (i: int)
    requires
        0 <= from <= to < hay.len(),
        hay[to] == c,
    ensures
        from <= i <= to,
        hay[i] == c,
        forall|k: int| from <= k < i ==> #[trigger] hay[k] != c,
    decreases to - from,
{
    if hay[from] == c {
        from
    } else {
        lemma_first_place(hay, c, from + 1, to)
    }
}

/// Where a needle can be placed, it has a leftmost placement.
proof fn lemma_leftmost_exists(needle: Seq<char>, hay: Seq<char>, other: Seq<int>) -> (at: Seq<int>)
    requires
        places(needle, hay, other),
    ensures
        is_leftmost(needle, hay, at),
    decreases needle.len(),
{
    if needle.len() == 0 {
        assert(is_leftmost(needle, hay, seq![]));
        seq![]
    } else {
        let n = needle.len() - 1;
        let front = needle.drop_last();
        assert(places(front, hay, other.drop_last()));
        let before = lemma_leftmost_exists(front, hay, other.drop_last());
        let from = if n == 0 {
            0
        } else {
            assert(front.take(front.len() as int) == front);
            lemma_leftmost_ahead(front, hay, before, other.drop_last(), n - 1);
            assert(other[n - 1] < other[n]);
            before[n - 1] + 1
        };
        assert(0 <= other[n] < hay.len() && hay[other[n]] == needle[n]);
        let i = lemma_first_place(hay, needle[n], from, other[n]);
        let at = before.push(i);
        assert forall|j: int, k: int| 0 <= j < k < at.len() implies at[j] < at[k] by {
            if k == n && j < n - 1 {
                assert(before[j] < before[n - 1]);
            }
        }
        assert forall|k: int| 0 <= k < at.len() implies 0 <= #[trigger] at[k] < hay.len()
            && hay[at[k]] == needle[k] by {
            if k < n {
                assert(0 <= before[k] < hay.len());
                assert(hay[before[k]] == front[k]);
            }
        }
        assert(places(needle, hay, at));
        assert forall|k: int, i: int|
            #![trigger at[k], hay[i]]
            0 <= k < at.len() && (if k == 0 {
                0
            } else {
                at[k - 1] + 1
            }) <= i < at[k] implies hay[i] != needle[k] by {
            if k < n {
                assert(before[k] == at[k]);
                assert(front[k] == needle[k]);
            }
        }
        at
    }
}

/// What a match is worth comes from a placement: the best one in a short
/// haystack, in a long one the one that is nowhere to the right of any.
pub proof fn score_is_that_of_a_placement(needle: Seq<char>, hay: Seq<char>)
    requires
        needle.len() > 0,
        subsequence(needle, hay),
    ensures
        exists|at: Seq<int>|
            {
                &&& #[trigger] places(needle, hay, at)
                &&& score_of(needle, hay) == Some(
                    worth(hay, at) + (if needle == hay.take(needle.len() as int) {
                        60int
                    } else if exists|i: int|
                        0 <= i <= hay.len() - needle.len() && #[trigger] hay.subrange(
                            i,
                            i + needle.len(),
                        ) == needle {
                        40
                    } else {
                        0
                    }) - hay.len() as int / 10,
                )
                &&& hay.len() <= 96 ==> forall|other: Seq<int>| #[trigger]
                    places(needle, hay, other) ==> worth(hay, other) <= worth(hay, at)
                &&& hay.len() > 96 ==> forall|other: Seq<int>, k: int|
                    places(needle, hay, other) && 0 <= k < needle.len() ==> at[k]
                        <= #[trigger] other[k]
            },
{
    let some = choose|at: Seq<int>| places(needle, hay, at);
    lemma_places_bytes(needle, hay, some);
    assert(hay.subrange(0, 0int + needle.len()) =~= hay.take(needle.len() as int));
    assert(occurs(needle, hay) <==> exists|i: int|
        0 <= i <= hay.len() - needle.len() && #[trigger] hay.subrange(i, i + needle.len())
            == needle) by {
        if occurs(needle, hay) {
            let i = choose|i: int|
                0 <= i <= hay.len() - needle.len() && #[trigger] occurs_at(needle, hay, i);
            assert(hay.subrange(i, i + needle.len()) == needle);
        }
        if exists|i: int|
            0 <= i <= hay.len() - needle.len() && #[trigger] hay.subrange(i, i + needle.len())
                == needle {
            let i = choose|i: int|
                0 <= i <= hay.len() - needle.len() && #[trigger] hay.subrange(
                    i,
                    i + needle.len(),
                ) == needle;
            assert(occurs_at(needle, hay, i));
        }
    }
    if hay.len() <= 96 {
        lemma_best_from(needle, hay, some);
        let total = chain_total(needle, hay);
        assert(is_best(needle, hay, total));
        let at = choose|at: Seq<int>| #[trigger]
            places(needle, hay, at) && worth(hay, at) == total;
        assert(places(needle, hay, at));
    } else {
        let first = lemma_leftmost_exists(needle, hay, some);
        let at = choose|at: Seq<int>| is_leftmost(needle, hay, at);
        assert(is_leftmost(needle, hay, at));
        assert(needle.take(needle.len() as int) == needle);
        assert forall|other: Seq<int>, k: int|
            places(needle, hay, other) && 0 <= k < needle.len() implies at[k]
            <= #[trigger] other[k] by {
            lemma_leftmost_ahead(needle, hay, at, other, k);
        }
        assert(places(needle, hay, at));
    }
}

/// A needle in words without separators is worth no more than this wherever it
/// is placed: no character can both open a word and follow its predecessor.
proof fn lemma_scattered_worth(needle: Seq<char>, hay: Seq<char>, at: Seq<int>)
    requires
        needle.len() >= 1,
        places(needle, hay, at),
        forall|k: int| 0 <= k < needle.len() ==> !" -_./:"@.contains(#[trigger] needle[k]),
    ensures
        worth(hay, at) <= 50 + 40 * (needle.len() - 1),
    decreases needle.len(),
{
    let n = needle.len() - 1;
    if n == 0 {
        assert(at =~= seq![at[0]]);
        first_character_is_worth(hay, at[0]);
    } else {
        let front = needle.drop_last();
        let before = at.drop_last();
        assert(places(front, hay, before));
        assert forall|k: int| 0 <= k < front.len() implies !" -_./:"@.contains(
            #[trigger] front[k],
        ) by {
            assert(front[k] == needle[k]);
        }
        lemma_scattered_worth(front, hay, before);
        assert(at[n - 1] < at[n]);
        assert(before.push(at[n]) =~= at);
        next_character_is_worth(hay, before, at[n]);
        assert(hay[at[n - 1]] == needle[n - 1]);
    }
}

/// A run at the start of a text is worth at least this.
proof fn lemma_prefix_worth(needle: Seq<char>, hay: Seq<char>)
    requires
        1 <= needle.len() <= hay.len(),
        needle == hay.take(needle.len() as int),
    ensures
        ({
            let at = Seq::new(needle.len(), |k: int| k);
            places(needle, hay, at) && is_leftmost(needle, hay, at) && worth(hay, at) >= 50 + 36 * (
            needle.len() - 1)
        }),
    decreases needle.len(),
{
    let at = Seq::new(needle.len(), |k: int| k);
    assert forall|k: int| 0 <= k < at.len() implies hay[#[trigger] at[k]] == needle[k] by {
        assert(hay.take(needle.len() as int)[k] == hay[k]);
    }
    assert(places(needle, hay, at));
    let n = needle.len() - 1;
    if n == 0 {
        assert(at =~= seq![0int]);
        first_character_is_worth(hay, 0);
    } else {
        let front = needle.drop_last();
        let before = Seq::new(front.len(), |k: int| k);
        assert(front =~= hay.take(n));
        lemma_prefix_worth(front, hay);
        assert(before.push(n) =~= at);
        next_character_is_worth(hay, before, n);
    }
}

/// A name that starts with the query beats one that only holds its letters
/// scattered, until the query is so long or the name so much longer that four
/// for each further letter and one for every ten characters eat up the sixty.
pub proof fn prefix_beats_scattered(needle: Seq<char>, name: Seq<char>, scattered: Seq<char>)
    requires
        1 <= needle.len() <= name.len(),
        needle == name.take(needle.len() as int),
        forall|k: int| 0 <= k < needle.len() ==> !" -_./:"@.contains(#[trigger] needle[k]),
        score_of(needle, scattered) is Some,
        forall|i: int|
            0 <= i <= scattered.len() - needle.len() ==> #[trigger] scattered.subrange(
                i,
                i + needle.len(),
            ) != needle,
        4 * (needle.len() - 1) + name.len() as int / 10 < 60 + scattered.len() as int / 10,
    ensures
        score_of(needle, name) is Some,
        score_of(needle, name).unwrap() > score_of(needle, scattered).unwrap(),
{
    let run = Seq::new(needle.len(), |k: int| k);
    lemma_prefix_worth(needle, name);
    assert(subsequence(needle, name));
    score_is_that_of_a_placement(needle, name);
    if name.len() > 96 {
        let at = choose|at: Seq<int>| is_leftmost(needle, name, at);
        assert(is_leftmost(needle, name, run));
        leftmost_is_unique(needle, name, at, run);
        assert(name.subrange(0, 0int + needle.len()) =~= name.take(needle.len() as int));
    }
    score_is_that_of_a_placement(needle, scattered);
    let at = choose|at: Seq<int>|
        {
            &&& #[trigger] places(needle, scattered, at)
            &&& score_of(needle, scattered) == Some(
                worth(scattered, at) + (if needle == scattered.take(needle.len() as int) {
                    60int
                } else if exists|i: int|
                    0 <= i <= scattered.len() - needle.len() && #[trigger] scattered.subrange(
                        i,
                        i + needle.len(),
                    ) == needle {
                    40
                } else {
                    0
                }) - scattered.len() as int / 10,
            )
        };
    lemma_scattered_worth(needle, scattered, at);
    lemma_places_bytes(needle, scattered, at);
    assert(scattered.subrange(0, 0int + needle.len()) =~= scattered.take(needle.len() as int));
}

/// A needle that stands in the haystack without gaps matches it; so every text
/// is found by itself and by each of its parts.
pub proof fn part_of_a_text_matches(needle: Seq<char>, hay: Seq<char>, i: int)
    requires
        0 <= i <= hay.len() - needle.len(),
        occurs_at(needle, hay, i),
    ensures
        score_of(needle, hay) is Some,
{
    let at = Seq::new(needle.len(), |k: int| i + k);
    assert forall|k: int| 0 <= k < at.len() implies hay[#[trigger] at[k]] == needle[k] by {
        assert(hay.subrange(i, i + needle.len())[k] == needle[k]);
    }
    assert(places(needle, hay, at));
}

/// Typing on only ever narrows the list: what a longer needle matches, its
/// front matches too.
pub proof fn longer_needle_matches_no_more(needle: Seq<char>, more: Seq<char>, hay: Seq<char>)
    requires
        score_of(needle + more, hay) is Some,
    ensures
        score_of(needle, hay) is Some,
{
    if needle.len() > 0 {
        let at = choose|at: Seq<int>| places(needle + more, hay, at);
        let front = at.take(needle.len() as int);
        assert forall|k: int| 0 <= k < front.len() implies hay[#[trigger] front[k]]
            == needle[k] by {
            assert(hay[at[k]] == (needle + more)[k]);
        }
        assert(places(needle, hay, front));
    }
}

/// Folding goes character by character: the parts of a text fold to the parts
/// of what it folds to.
pub proof fn folding_keeps_parts_together(front: Seq<char>, back: Seq<char>)
    ensures
        folded(front + back) == folded(front) + folded(back),
    decreases back.len(),
{
    if back.len() == 0 {
        assert(front + back =~= front);
        assert(folded(front) + folded(back) =~= folded(front));
    } else {
        assert((front + back).drop_last() =~= front + back.drop_last());
        folding_keeps_parts_together(front, back.drop_last());
        assert(folded(front + back) =~= folded(front) + folded(back));
    }
}

/// The letters of Latin-1 Supplement and Latin Extended-A that have a plain
/// spelling, by code point: the lowercase half of Latin-1 but for the division
/// sign, and in Latin Extended-A every second letter, odd up to U+0137, even up
/// to U+0148, odd up to U+0177 and even to the end, but for the ligature ij;
/// and U+0130.
pub open spec fn is_accented(u: int) -> bool {
    ||| 0xDF <= u <= 0xFF && u != 0xF7
    ||| 0x101 <= u <= 0x137 && u % 2 == 1 && u != 0x133
    ||| u == 0x130
    ||| 0x13A <= u <= 0x148 && u % 2 == 0
    ||| 0x14B <= u <= 0x177 && u % 2 == 1
    ||| 0x17A <= u <= 0x17E && u % 2 == 0
}

/// The letters that the accented letter with this code point is spelled with:
/// both blocks go through the alphabet, one base letter after the other.
pub open spec fn base_letters(u: int) -> Seq<char> {
    if u == 0xDF {
        seq!['s', 's']
    } else if u == 0xE6 {
        seq!['a', 'e']
    } else if u == 0xFE {
        seq!['t', 'h']
    } else if u == 0x153 {
        seq!['o', 'e']
    } else if u <= 0xE5 || 0x100 <= u <= 0x105 {
        seq!['a']
    } else if u == 0xE7 || 0x106 <= u <= 0x10D {
        seq!['c']
    } else if u == 0xF0 || 0x10E <= u <= 0x111 {
        seq!['d']
    } else if 0xE8 <= u <= 0xEB || 0x112 <= u <= 0x11B {
        seq!['e']
    } else if 0x11C <= u <= 0x123 {
        seq!['g']
    } else if 0x124 <= u <= 0x127 {
        seq!['h']
    } else if 0xEC <= u <= 0xEF || 0x128 <= u <= 0x131 {
        seq!['i']
    } else if 0x134 <= u <= 0x135 {
        seq!['j']
    } else if 0x136 <= u <= 0x137 {
        seq!['k']
    } else if 0x139 <= u <= 0x142 {
        seq!['l']
    } else if u == 0xF1 || 0x143 <= u <= 0x14B {
        seq!['n']
    } else if 0xF2 <= u <= 0xF8 || 0x14C <= u <= 0x151 {
        seq!['o']
    } else if 0x154 <= u <= 0x159 {
        seq!['r']
    } else if 0x15A <= u <= 0x161 {
        seq!['s']
    } else if 0x162 <= u <= 0x167 {
        seq!['t']
    } else if 0xF9 <= u <= 0xFC || 0x168 <= u <= 0x173 {
        seq!['u']
    } else if 0x174 <= u <= 0x175 {
        seq!['w']
    } else if 0xFD <= u <= 0xFF || 0x176 <= u <= 0x178 {
        seq!['y']
    } else {
        seq!['z']
    }
}

/// Every accented letter of the two blocks is spelled with its base letters,
/// and no other character has a plain spelling.
pub proof fn accented_letters_have_their_base_letters(c: char)
    ensures
        plain(c) is Some <==> is_accented(c as int),
        plain(c) is Some ==> plain(c).unwrap() == base_letters(c as int),
{
}

/// Every character that `c` lowercases to is lowercase itself: its own
/// lowercase mapping, and no ASCII capital.
pub open spec fn lowercases_for_good(c: char) -> bool {
    forall|k: int|
        0 <= k < lowercase(c).len() ==> {
            &&& lowercase(#[trigger] lowercase(c)[k]) == seq![lowercase(c)[k]]
            &&& ascii_lowercase(lowercase(c)[k]) == lowercase(c)[k]
        }
}

/// A character that is neither ASCII nor an accented Latin letter is
/// lowercased, and of what that gives every accented letter is spelled plainly
/// and the rest kept, in order.
pub proof fn other_characters_are_lowercased(c: char, front: Seq<char>, x: char)
    requires
        !is_ascii_char(c),
        plain(c) is None,
    ensures
        folded(seq![c]) == stripped(lowercase(c)),
        stripped(front.push(x)) == stripped(front) + (match plain(x) {
            Some(spelling) => spelling,
            None => seq![x],
        }),
        stripped(seq![]) == Seq::<char>::empty(),
{
    reveal_with_fuel(folded, 2);
    assert(seq![c].drop_last() =~= Seq::<char>::empty());
    assert(folded(seq![c]) =~= stripped(lowercase(c)));
    assert(front.push(x).drop_last() =~= front);
}

/// An accented Latin letter folds to its plain spelling, and of the other ASCII
/// characters capitals fold to the small letter and the rest to themselves.
pub proof fn latin_letters_fold_to_plain_ones(c: char)
    ensures
        plain(c) is Some ==> folded(seq![c]) == plain(c).unwrap(),
        'A' <= c <= 'Z' ==> folded(seq![c]) == seq![((c as u32) + 32) as char],
        is_ascii_char(c) && !('A' <= c <= 'Z') ==> folded(seq![c]) == seq![c],
{
    reveal_with_fuel(folded, 2);
    assert(seq![c].drop_last() =~= Seq::<char>::empty());
    assert(folded(seq![c]) =~= folded_char(c));
}

/// Folding folded text changes nothing. Of the characters that are neither
/// ASCII nor accented Latin letters, this takes that lowercasing them twice is
/// lowercasing them once.
pub proof fn folding_twice_changes_nothing(text: Seq<char>)
    requires
        forall|i: int|
            0 <= i < text.len() ==> plain(#[trigger] text[i]) is Some || is_ascii_char(text[i])
                || lowercases_for_good(text[i]),
    ensures
        folded(folded(text)) == folded(text),
    decreases text.len(),
{
    if text.len() > 0 {
        let front = text.drop_last();
        let c = text.last();
        assert forall|i: int| 0 <= i < front.len() implies plain(#[trigger] front[i]) is Some
            || is_ascii_char(front[i]) || lowercases_for_good(front[i]) by {
            assert(front[i] == text[i]);
        }
        folding_twice_changes_nothing(front);
        folding_keeps_parts_together(folded(front), folded_char(c));
        assert(plain(text[text.len() - 1]) is Some || is_ascii_char(c) || lowercases_for_good(c));
        if plain(c) is Some {
            lemma_spelling_stays(c);
        } else if is_ascii_char(c) {
            lemma_plain_ascii_stays(seq![ascii_lowercase(c)]);
        } else {
            lemma_stripped_stays(lowercase(c));
        }
    }
}

/// ASCII text without capitals folds to itself.
proof fn lemma_plain_ascii_stays(text: Seq<char>)
    requires
        forall|i: int|
            0 <= i < text.len() ==> is_ascii_char(#[trigger] text[i]) && ascii_lowercase(text[i])
                == text[i],
    ensures
        folded(text) == text,
    decreases text.len(),
{
    if text.len() > 0 {
        let front = text.drop_last();
        assert forall|i: int| 0 <= i < front.len() implies is_ascii_char(#[trigger] front[i])
            && ascii_lowercase(front[i]) == front[i] by {
            assert(front[i] == text[i]);
        }
        lemma_plain_ascii_stays(front);
        let c = text[text.len() - 1];
        assert(plain(c) is None);
        assert(folded(text) =~= text);
    }
}

/// A plain spelling folds to itself.
proof fn lemma_spelling_stays(c: char)
    requires
        plain(c) is Some,
    ensures
        folded(plain(c).unwrap()) == plain(c).unwrap(),
{
    lemma_plain_ascii_stays(plain(c).unwrap());
}

/// Stripped lowercase text folds to itself.
proof fn lemma_stripped_stays(lower: Seq<char>)
    requires
        forall|k: int|
            0 <= k < lower.len() ==> lowercase(#[trigger] lower[k]) == seq![lower[k]]
                && ascii_lowercase(lower[k]) == lower[k],
    ensures
        folded(stripped(lower)) == stripped(lower),
    decreases lower.len(),
{
    if lower.len() > 0 {
        let front = lower.drop_last();
        let c = lower[lower.len() - 1];
        assert forall|k: int| 0 <= k < front.len() implies lowercase(#[trigger] front[k])
            == seq![front[k]] && ascii_lowercase(front[k]) == front[k] by {
            assert(front[k] == lower[k]);
        }
        lemma_stripped_stays(front);
        match plain(c) {
            Some(spelling) => {
                lemma_spelling_stays(c);
                folding_keeps_parts_together(stripped(front), spelling);
            },
            None => {
                folding_keeps_parts_together(stripped(front), seq![c]);
                reveal_with_fuel(folded, 2);
                reveal_with_fuel(stripped, 2);
                assert(seq![c].drop_last() =~= Seq::<char>::empty());
                assert(stripped(seq![c]) =~= seq![c]);
                assert(folded(seq![c]) =~= seq![c]);
            },
        }
    }
}

/// Whether the needle stands in the haystack at `i`.
fn stands_at(needle: &[char], hay: &[char], i: usize) -> (r: bool)
    requires
        i + needle@.len() <= hay@.len(),
    ensures
        r == occurs_at(needle@, hay@, i as int),
{
    let end: usize = hay.len();
    let mut k: usize = 0;
    while k < needle.len()
        invariant
            k <= needle@.len(),
            i + needle@.len() <= hay@.len() == end,
            forall|j: int| 0 <= j < k ==> #[trigger] needle@[j] == hay@[i + j],
        decreases needle@.len() - k,
    {
        if hay[i + k] != needle[k] {
            proof {
                assert(hay@.subrange(i as int, i + needle@.len())[k as int] != needle@[k as int]);
            }
            return false;
        }
        k += 1;
    }
    assert(hay@.subrange(i as int, i + needle@.len()) =~= needle@);
    true
}

/// Whether the needle stands anywhere in the haystack.
fn stands_in(needle: &[char], hay: &[char]) -> (r: bool)
    requires
        needle@.len() <= hay@.len(),
    ensures
        r == occurs(needle@, hay@),
{
    let last: usize = hay.len() - needle.len();
    let mut i: usize = 0;
    while i <= last
        invariant
            needle@.len() <= hay@.len(),
            last == hay@.len() - needle@.len(),
            i <= last + 1,
            forall|j: int| 0 <= j < i ==> !#[trigger] occurs_at(needle@, hay@, j),
        decreases last + 1 - i,
    {
        if stands_at(needle, hay, i) {
            return true;
        }
        if i == last {
            return false;
        }
        i += 1;
    }
    false
}

/// What the placed characters are worth together, or `None` when the needle
/// is not a subsequence of the haystack.
fn placed(needle: &[char], hay: &[char]) -> (r: Option<i32>)
    requires
        needle@.len() >= 1,
        scorable(needle@.len(), hay@.len()),
    ensures
        r is Some <==> subsequence(needle@, hay@),
        r is Some ==> r.unwrap() == chain_total(needle@, hay@) && -62 <= r.unwrap() <= 60
            * needle@.len() - 10,
{
    // The greedy scan is the exact subsequence test and it is linear, so it
    // runs first and rejects on its own. Only what survives pays for the
    // search below, which costs a pass over the haystack per needle character.
    let greedy: i32 = match greedy_chain(needle, hay) {
        Some(total) => total,
        None => {
            return None;
        },
    };
    if hay.len() <= DP_LIMIT {
        let best = best_chain(needle, hay);
        proof {
            let found = choose|found: Seq<int>| #[trigger]
                places(needle@, hay@, found) && worth(hay@, found) == best;
            lemma_worth_bounds(needle@, hay@, found);
            best_is_unique(needle@, hay@, best as int, chain_total(needle@, hay@));
        }
        Some(best)
    } else {
        proof {
            let at = choose|at: Seq<int>| is_leftmost(needle@, hay@, at);
            assert(greedy == worth(hay@, at));
            lemma_worth_bounds(needle@, hay@, at);
        }
        Some(greedy)
    }
}

/// Score `hay` against `needle`. Returns `None` when the needle is not a
/// subsequence of the haystack. Higher is better.
pub fn score(needle: &Folded, hay: &Folded) -> (r: Option<i32>)
    requires
        needle.wf(),
        hay.wf(),
        scorable(needle@.len(), hay@.len()),
    ensures
        match r {
            Some(total) => score_of(needle@, hay@) == Some(total as int) && total <= 60
                * hay@.len() + 50,
            None => score_of(needle@, hay@) is None,
        },
        // Everything matches an empty needle, and any other matches where its
        // characters stand in order.
        needle@.len() == 0 ==> r == Some(0i32),
        needle@.len() > 0 ==> (r is Some <==> exists|at: Seq<int>| #[trigger]
            places(needle@, hay@, at)),
        // A match is worth what its placement is: the best one in a short
        // haystack, in a long one the one that is nowhere to the right of any.
        needle@.len() > 0 && r is Some ==> exists|at: Seq<int>|
            {
                &&& #[trigger] places(needle@, hay@, at)
                &&& r.unwrap() == worth(hay@, at) + (if needle@ == hay@.take(
                    needle@.len() as int,
                ) {
                    60int
                } else if exists|i: int|
                    0 <= i <= hay@.len() - needle@.len() && #[trigger] hay@.subrange(
                        i,
                        i + needle@.len(),
                    ) == needle@ {
                    40
                } else {
                    0
                }) - hay@.len() as int / 10
                &&& hay@.len() <= 96 ==> forall|other: Seq<int>| #[trigger]
                    places(needle@, hay@, other) ==> worth(hay@, other) <= worth(hay@, at)
                &&& hay@.len() > 96 ==> forall|other: Seq<int>, k: int|
                    places(needle@, hay@, other) && 0 <= k < needle@.len() ==> at[k]
                        <= #[trigger] other[k]
            },
{
    proof {
        if needle@.len() > 0 && subsequence(needle@, hay@) {
            score_is_that_of_a_placement(needle@, hay@);
        }
    }
    if needle.chars.len() == 0 {
        return Some(0);
    }
    // A matched character contributes the same number of bytes on both sides,
    // so fewer bytes in the haystack rules a match out without touching chars.
    if hay.text.as_str().as_bytes().len() < needle.text.as_str().as_bytes().len() || hay.chars.len()
        < needle.chars.len() {
        proof {
            assert forall|at: Seq<int>| !places(needle@, hay@, at) by {
                if places(needle@, hay@, at) {
                    lemma_places_bytes(needle@, hay@, at);
                }
            }
        }
        return None;
    }
    let mut total: i32 = match placed(&needle.chars, &hay.chars) {
        Some(total) => total,
        None => {
            return None;
        },
    };

    // Contiguous hits beat scattered ones, short names beat long ones.
    if stands_at(&needle.chars, &hay.chars, 0) {
        total += 60;
    } else if stands_in(&needle.chars, &hay.chars) {
        total += 40;
    }
    total -= (hay.chars.len() / 10) as i32;
    Some(total)
}

} // verus!
