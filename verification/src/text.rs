//! Text as sequences of characters.

use vstd::prelude::*;

verus! {

/// `String::push`: appends one character to the end of the string.
pub assume_specification[ String::push ](s: &mut String, c: char)
    ensures
        final(s)@ == old(s)@.push(c),
;

/// The characters of `text`, in order.
pub fn chars_of(text: &str) -> (chars: Vec<char>)
    ensures
        chars@ == text@,
{
    let mut chars: Vec<char> = Vec::new();
    for c in it: text.chars()
        invariant
            it.seq() == text@,
            chars@ == text@.take(it.index() as int),
    {
        chars.push(c);
        assert(chars@ == text@.take(it.index() + 1));
    }
    assert(text@.take(text@.len() as int) == text@);
    chars
}

/// The characters of `chars` from `from` up to `to`, as a string.
pub fn string_of(chars: &[char], from: usize, to: usize) -> (text: String)
    requires
        from <= to <= chars@.len(),
    ensures
        text@ == chars@.subrange(from as int, to as int),
{
    let mut text = String::new();
    let mut i: usize = from;
    while i < to
        invariant
            from <= i <= to <= chars@.len(),
            text@ == chars@.subrange(from as int, i as int),
        decreases to - i,
    {
        text.push(chars[i]);
        i += 1;
        assert(text@ == chars@.subrange(from as int, i as int));
    }
    text
}

/// Whether two texts are the same, character for character.
pub fn same(a: &str, b: &str) -> (r: bool)
    ensures
        r == (a@ == b@),
{
    a.to_owned() == b.to_owned()
}

// ---------------------------------------------------------------------------
// White space
// ---------------------------------------------------------------------------

/// The characters with the Unicode property White_Space.
pub open spec fn white_space(c: char) -> bool {
    let u = c as u32;
    (9 <= u <= 13) || u == 0x20 || u == 0x85 || u == 0xA0 || u == 0x1680 || (0x2000 <= u <= 0x200A)
        || u == 0x2028 || u == 0x2029 || u == 0x202F || u == 0x205F || u == 0x3000
}

pub fn is_white_space(c: char) -> (r: bool)
    ensures
        r == white_space(c),
{
    let u: u32 = c as u32;
    (9 <= u && u <= 13) || u == 0x20 || u == 0x85 || u == 0xA0 || u == 0x1680 || (0x2000 <= u && u
        <= 0x200A) || u == 0x2028 || u == 0x2029 || u == 0x202F || u == 0x205F || u == 0x3000
}

pub open spec fn trimmed_start(s: Seq<char>) -> Seq<char>
    decreases s.len(),
{
    if s.len() > 0 && white_space(s[0]) {
        trimmed_start(s.drop_first())
    } else {
        s
    }
}

pub open spec fn trimmed_end(s: Seq<char>) -> Seq<char>
    decreases s.len(),
{
    if s.len() > 0 && white_space(s.last()) {
        trimmed_end(s.drop_last())
    } else {
        s
    }
}

/// `s` without the white space at either end.
pub open spec fn trimmed(s: Seq<char>) -> Seq<char> {
    trimmed_end(trimmed_start(s))
}

/// `text` without the white space at either end.
pub fn trim(text: &str) -> (r: String)
    ensures
        r@ == trimmed(text@),
{
    let chars = chars_of(text);
    let mut from: usize = 0;
    assert(chars@.skip(0) == chars@);
    while from < chars.len() && is_white_space(chars[from])
        invariant
            from <= chars@.len(),
            trimmed_start(chars@) == trimmed_start(chars@.skip(from as int)),
        decreases chars@.len() - from,
    {
        assert(chars@.skip(from as int).drop_first() == chars@.skip(from + 1));
        from += 1;
    }
    let ghost body = chars@.skip(from as int);
    assert(trimmed_start(chars@) == body);
    let mut to: usize = chars.len();
    assert(body == chars@.subrange(from as int, to as int));
    while to > from && is_white_space(chars[to - 1])
        invariant
            from <= to <= chars@.len(),
            trimmed_end(body) == trimmed_end(chars@.subrange(from as int, to as int)),
        decreases to,
    {
        assert(chars@.subrange(from as int, to as int).drop_last() == chars@.subrange(
            from as int,
            to - 1,
        ));
        to -= 1;
    }
    string_of(&chars, from, to)
}

/// Nothing is left of blank text, and nothing else loses all it has.
pub proof fn trimmed_is_empty_when_blank(s: Seq<char>)
    ensures
        trimmed(s).len() == 0 <==> forall|i: int| 0 <= i < s.len() ==> white_space(#[trigger] s[i]),
    decreases s.len(),
{
    if s.len() > 0 {
        if white_space(s[0]) {
            let rest = s.drop_first();
            trimmed_is_empty_when_blank(rest);
            if trimmed(s).len() == 0 {
                assert forall|i: int| 0 <= i < s.len() implies white_space(#[trigger] s[i]) by {
                    if i > 0 {
                        assert(rest[i - 1] == s[i]);
                    }
                }
            } else {
                let i = choose|i: int| 0 <= i < rest.len() && !white_space(#[trigger] rest[i]);
                assert(!white_space(s[i + 1]));
            }
        } else {
            lemma_trimmed_end_keeps_first(s);
        }
    }
}

/// Trimming takes the white space off both ends and nothing else.
pub proof fn trimmed_is_what_stands_between(s: Seq<char>) -> (ends: (int, int))
    ensures
        0 <= ends.0 <= ends.1 <= s.len(),
        trimmed(s) == s.subrange(ends.0, ends.1),
        forall|i: int| 0 <= i < ends.0 || ends.1 <= i < s.len() ==> white_space(#[trigger] s[i]),
        ends.0 < ends.1 ==> !white_space(s[ends.0]) && !white_space(s[ends.1 - 1]),
{
    let from = lemma_trimmed_start(s);
    let rest = s.skip(from);
    let to = lemma_trimmed_end(rest);
    assert(trimmed(s) =~= s.subrange(from, from + to));
    assert forall|i: int|
        0 <= i < from || from + to <= i < s.len() implies white_space(#[trigger] s[i]) by {
        if i >= from {
            assert(rest[i - from] == s[i]);
        }
    }
    (from, from + to)
}

proof fn lemma_trimmed_start(s: Seq<char>) -> (from: int)
    ensures
        0 <= from <= s.len(),
        trimmed_start(s) == s.skip(from),
        forall|i: int| 0 <= i < from ==> white_space(#[trigger] s[i]),
        from < s.len() ==> !white_space(s[from]),
    decreases s.len(),
{
    if s.len() > 0 && white_space(s[0]) {
        let rest = s.drop_first();
        let from = lemma_trimmed_start(rest);
        assert(s.skip(from + 1) =~= rest.skip(from));
        assert forall|i: int| 0 <= i < from + 1 implies white_space(#[trigger] s[i]) by {
            if i > 0 {
                assert(rest[i - 1] == s[i]);
            }
        }
        from + 1
    } else {
        assert(s.skip(0) =~= s);
        0
    }
}

proof fn lemma_trimmed_end(s: Seq<char>) -> (to: int)
    ensures
        0 <= to <= s.len(),
        trimmed_end(s) == s.take(to),
        forall|i: int| to <= i < s.len() ==> white_space(#[trigger] s[i]),
        to > 0 ==> !white_space(s[to - 1]),
    decreases s.len(),
{
    if s.len() > 0 && white_space(s.last()) {
        let rest = s.drop_last();
        let to = lemma_trimmed_end(rest);
        assert(s.take(to) =~= rest.take(to));
        assert forall|i: int| to <= i < s.len() implies white_space(#[trigger] s[i]) by {
            if i < rest.len() {
                assert(rest[i] == s[i]);
            }
        }
        if to > 0 {
            assert(rest[to - 1] == s[to - 1]);
        }
        to
    } else {
        assert(s.take(s.len() as int) =~= s);
        s.len() as int
    }
}

proof fn lemma_trimmed_end_keeps_first(s: Seq<char>)
    requires
        s.len() > 0,
        !white_space(s[0]),
    ensures
        trimmed_end(s).len() > 0,
    decreases s.len(),
{
    if white_space(s.last()) {
        lemma_trimmed_end_keeps_first(s.drop_last());
    }
}

// ---------------------------------------------------------------------------
// Alphabetical order
// ---------------------------------------------------------------------------

/// `a` does not come after `b` in the order of their code points, which is the
/// order of their UTF-8 bytes too.
pub open spec fn not_after(a: Seq<char>, b: Seq<char>) -> bool
    decreases a.len(),
{
    if a.len() == 0 {
        true
    } else if b.len() == 0 {
        false
    } else if a[0] != b[0] {
        a[0] < b[0]
    } else {
        not_after(a.drop_first(), b.drop_first())
    }
}

pub proof fn not_after_total(a: Seq<char>, b: Seq<char>)
    ensures
        not_after(a, b) || not_after(b, a),
    decreases a.len(),
{
    if a.len() > 0 && b.len() > 0 && a[0] == b[0] {
        not_after_total(a.drop_first(), b.drop_first());
    }
}

pub proof fn not_after_transitive(a: Seq<char>, b: Seq<char>, c: Seq<char>)
    requires
        not_after(a, b),
        not_after(b, c),
    ensures
        not_after(a, c),
    decreases a.len(),
{
    if a.len() > 0 && b.len() > 0 && c.len() > 0 && a[0] == b[0] && b[0] == c[0] {
        not_after_transitive(a.drop_first(), b.drop_first(), c.drop_first());
    }
}

pub proof fn not_after_antisymmetric(a: Seq<char>, b: Seq<char>)
    requires
        not_after(a, b),
        not_after(b, a),
    ensures
        a == b,
    decreases a.len(),
{
    if a.len() > 0 && b.len() > 0 {
        not_after_antisymmetric(a.drop_first(), b.drop_first());
        assert(a == seq![a[0]] + a.drop_first());
        assert(b == seq![b[0]] + b.drop_first());
    } else {
        assert(a =~= b);
    }
}

/// The first difference decides the order, and what is the front of another
/// text comes before it.
pub proof fn first_difference_decides(
    front: Seq<char>,
    x: char,
    a: Seq<char>,
    y: char,
    b: Seq<char>,
)
    requires
        x < y,
    ensures
        not_after(front.push(x) + a, front.push(y) + b),
        !not_after(front.push(y) + b, front.push(x) + a),
        not_after(front, front + a),
        a.len() > 0 ==> !not_after(front + a, front),
    decreases front.len(),
{
    let (l, r) = (front.push(x) + a, front.push(y) + b);
    let longer = front + a;
    assert(l[front.len() as int] == x && r[front.len() as int] == y);
    if front.len() > 0 {
        let rest = front.drop_first();
        first_difference_decides(rest, x, a, y, b);
        assert(l[0] == front[0] && r[0] == front[0] && longer[0] == front[0]);
        assert(l.drop_first() =~= rest.push(x) + a);
        assert(r.drop_first() =~= rest.push(y) + b);
        assert(longer.drop_first() =~= rest + a);
    }
}

/// Whether `a` does not come after `b`.
pub fn comes_no_later(a: &[char], b: &[char]) -> (r: bool)
    ensures
        r == not_after(a@, b@),
{
    let mut i: usize = 0;
    assert(a@.skip(0) == a@ && b@.skip(0) == b@);
    while i < a.len() && i < b.len()
        invariant
            i <= a@.len(),
            i <= b@.len(),
            not_after(a@, b@) == not_after(a@.skip(i as int), b@.skip(i as int)),
        decreases a@.len() - i,
    {
        if a[i] != b[i] {
            return a[i] < b[i];
        }
        assert(a@.skip(i as int).drop_first() == a@.skip(i + 1));
        assert(b@.skip(i as int).drop_first() == b@.skip(i + 1));
        i += 1;
    }
    i == a.len()
}

// ---------------------------------------------------------------------------
// Replacing
// ---------------------------------------------------------------------------

/// `s` with every occurrence of `token`, found from left to right without
/// overlap, replaced by `value`.
pub open spec fn replaced(s: Seq<char>, token: Seq<char>, value: Seq<char>) -> Seq<char>
    recommends
        token.len() > 0,
    decreases s.len(),
{
    if token.len() == 0 || s.len() < token.len() {
        s
    } else if s.take(token.len() as int) == token {
        value + replaced(s.skip(token.len() as int), token, value)
    } else {
        seq![s[0]] + replaced(s.drop_first(), token, value)
    }
}

/// `token` stands nowhere in `s`.
pub open spec fn free_of(s: Seq<char>, token: Seq<char>) -> bool {
    forall|i: int|
        0 <= i <= s.len() - token.len() ==> #[trigger] s.subrange(i, i + token.len()) != token
}

/// No part of `value` can be taken for a part of `token` at its ends, nor all
/// of it for a part in the middle.
pub open spec fn stays_apart(value: Seq<char>, token: Seq<char>) -> bool {
    &&& token.len() > 0
    &&& !value.contains(token[0])
    &&& !value.contains(token.last())
    &&& exists|k: int| 0 <= k < value.len() && !token.contains(#[trigger] value[k])
}

/// A text that starts with `end`, the end of a token that the value stays
/// apart from, after the replacement did so before.
proof fn lemma_starts_as_before(
    s: Seq<char>,
    token: Seq<char>,
    value: Seq<char>,
    end: Seq<char>,
)
    requires
        end.len() <= replaced(s, token, value).len(),
        replaced(s, token, value).take(end.len() as int) == end,
        end.len() > 0 ==> !value.contains(end.last()),
        exists|k: int| 0 <= k < value.len() && !end.contains(#[trigger] value[k]),
    ensures
        end.len() <= s.len(),
        s.take(end.len() as int) == end,
    decreases s.len(),
{
    let out = replaced(s, token, value);
    let n = end.len() as int;
    if end.len() == 0 {
        assert(s.take(0) =~= end);
    } else if token.len() == 0 || s.len() < token.len() {
    } else if s.take(token.len() as int) == token {
        let k = choose|k: int| 0 <= k < value.len() && !end.contains(#[trigger] value[k]);
        if n <= value.len() {
            assert(out.take(n)[n - 1] == value[n - 1]);
            assert(value.contains(end.last()));
        } else {
            assert(out.take(n)[k] == value[k]);
            assert(end.contains(value[k]));
        }
    } else {
        let rest = s.drop_first();
        let less = end.drop_first();
        let after = replaced(rest, token, value);
        assert(out.take(n)[0] == s[0]);
        assert(after.take(n - 1) =~= less) by {
            assert forall|j: int| 0 <= j < n - 1 implies after[j] == less[j] by {
                assert(out.take(n)[j + 1] == after[j]);
            }
        }
        let k = choose|k: int| 0 <= k < value.len() && !end.contains(#[trigger] value[k]);
        assert(!less.contains(value[k])) by {
            if less.contains(value[k]) {
                let j = choose|j: int| 0 <= j < less.len() && less[j] == value[k];
                assert(end[j + 1] == value[k]);
            }
        }
        if less.len() > 0 {
            assert(less.last() == end.last());
        }
        lemma_starts_as_before(rest, token, value, less);
        assert(s.take(n) =~= end) by {
            assert forall|j: int| 0 <= j < n implies s[j] == end[j] by {
                if j > 0 {
                    assert(rest.take(n - 1)[j - 1] == less[j - 1]);
                }
            }
        }
    }
}

/// A replacement leaves none of its token behind, and brings none of another
/// into a text that has none, as long as the value stays apart from it.
pub proof fn replacing_leaves_none(
    s: Seq<char>,
    token: Seq<char>,
    value: Seq<char>,
    other: Seq<char>,
)
    requires
        token.len() > 0,
        stays_apart(value, other),
        other == token || free_of(s, other),
    ensures
        free_of(replaced(s, token, value), other),
    decreases s.len(),
{
    let out = replaced(s, token, value);
    let n = other.len() as int;
    assert forall|i: int| 0 <= i <= out.len() - n implies #[trigger] out.subrange(i, i + n)
        != other by {
        if out.subrange(i, i + n) == other {
            assert(out.subrange(i, i + n)[0] == out[i]);
            if s.len() < token.len() {
            } else if s.take(token.len() as int) == token {
                let rest = s.skip(token.len() as int);
                let after = replaced(rest, token, value);
                if i < value.len() {
                    assert(value.contains(out[i]));
                } else {
                    lemma_free_of_rest(s, other, token.len() as int);
                    replacing_leaves_none(rest, token, value, other);
                    let j = i - value.len();
                    assert(after.subrange(j, j + n) =~= out.subrange(i, i + n));
                }
            } else {
                let rest = s.drop_first();
                let after = replaced(rest, token, value);
                if i > 0 {
                    lemma_free_of_rest(s, other, 1);
                    assert(s.skip(1) =~= rest);
                    replacing_leaves_none(rest, token, value, other);
                    assert(after.subrange(i - 1, i - 1 + n) =~= out.subrange(i, i + n));
                } else {
                    assert(out.take(n) =~= out.subrange(0, n));
                    lemma_starts_as_before(s, token, value, other);
                    assert(s.subrange(0, 0 + n) =~= s.take(n));
                }
            }
        }
    }
}

proof fn lemma_free_of_rest(s: Seq<char>, token: Seq<char>, from: int)
    requires
        0 <= from <= s.len(),
    ensures
        free_of(s, token) ==> free_of(s.skip(from), token),
{
    if free_of(s, token) {
        let rest = s.skip(from);
        assert forall|i: int| 0 <= i <= rest.len() - token.len() implies #[trigger] rest.subrange(
            i,
            i + token.len(),
        ) != token by {
            assert(rest.subrange(i, i + token.len()) =~= s.subrange(
                from + i,
                from + i + token.len(),
            ));
        }
    }
}

/// A text without the token stays as it is.
pub proof fn nothing_to_replace(s: Seq<char>, token: Seq<char>, value: Seq<char>)
    requires
        token.len() > 0,
        free_of(s, token),
    ensures
        replaced(s, token, value) == s,
    decreases s.len(),
{
    if s.len() >= token.len() {
        assert(s.subrange(0, 0int + token.len()) =~= s.take(token.len() as int));
        lemma_free_of_rest(s, token, 1);
        assert(s.skip(1) =~= s.drop_first());
        nothing_to_replace(s.drop_first(), token, value);
        assert(seq![s[0]] + s.drop_first() =~= s);
    }
}

/// The token is replaced by the value where it stands, and what stands around
/// it stays, as long as its first character does not occur there.
pub proof fn token_gives_way_to_the_value(
    front: Seq<char>,
    token: Seq<char>,
    value: Seq<char>,
    back: Seq<char>,
)
    requires
        token.len() > 0,
        !front.contains(token[0]),
        !back.contains(token[0]),
    ensures
        replaced(front + token + back, token, value) == front + value + back,
    decreases front.len(),
{
    let s = front + token + back;
    if front.len() == 0 {
        assert(s.take(token.len() as int) =~= token);
        assert(s.skip(token.len() as int) =~= back);
        assert(free_of(back, token)) by {
            assert forall|i: int|
                0 <= i <= back.len() - token.len() implies #[trigger] back.subrange(
                i,
                i + token.len(),
            ) != token by {
                if back.subrange(i, i + token.len()) == token {
                    assert(back.subrange(i, i + token.len())[0] == back[i]);
                    assert(back.contains(token[0]));
                }
            }
        }
        nothing_to_replace(back, token, value);
        assert(front + value + back =~= value + back);
    } else {
        let rest = front.drop_first();
        assert(s[0] == front[0]);
        assert(s.take(token.len() as int)[0] == front[0]);
        assert(front.contains(front[0]));
        assert(s.drop_first() =~= rest + token + back);
        assert(!rest.contains(token[0])) by {
            if rest.contains(token[0]) {
                let i = choose|i: int| 0 <= i < rest.len() && rest[i] == token[0];
                assert(front[i + 1] == token[0]);
            }
        }
        token_gives_way_to_the_value(rest, token, value, back);
        assert(seq![s[0]] + (rest + value + back) =~= front + value + back);
    }
}

/// Whether `token` stands in `chars` at `i`.
fn token_at(chars: &Vec<char>, i: usize, token: &Vec<char>) -> (r: bool)
    requires
        i + token@.len() <= chars@.len(),
    ensures
        r == (chars@.skip(i as int).take(token@.len() as int) == token@),
{
    let ghost here = chars@.skip(i as int).take(token@.len() as int);
    let end: usize = chars.len();
    let mut k: usize = 0;
    while k < token.len()
        invariant
            k <= token@.len(),
            i + token@.len() <= chars@.len() == end,
            here == chars@.skip(i as int).take(token@.len() as int),
            forall|j: int| 0 <= j < k ==> #[trigger] token@[j] == here[j],
        decreases token@.len() - k,
    {
        if chars[i + k] != token[k] {
            assert(here[k as int] != token@[k as int]);
            return false;
        }
        assert(here[k as int] == token@[k as int]);
        k += 1;
    }
    assert(here =~= token@);
    true
}

/// `text` with every `token` replaced by `value`.
pub fn replace(text: &str, token: &str, value: &str) -> (r: String)
    requires
        token@.len() > 0,
    ensures
        r@ == replaced(text@, token@, value@),
{
    let chars = chars_of(text);
    let mark = chars_of(token);
    let mut out = String::new();
    let mut i: usize = 0;
    assert(chars@.skip(0) == chars@);
    while i < chars.len()
        invariant
            mark@ == token@,
            mark@.len() > 0,
            i <= chars@.len(),
            replaced(chars@, token@, value@) == out@ + replaced(
                chars@.skip(i as int),
                token@,
                value@,
            ),
        decreases chars@.len() - i,
    {
        let ghost before = out@;
        if chars.len() - i >= mark.len() && token_at(&chars, i, &mark) {
            out.append(value);
            assert(chars@.skip(i as int).skip(mark@.len() as int) == chars@.skip(i + mark@.len()));
            assert(out@ + replaced(chars@.skip(i + mark@.len()), token@, value@) == before + (value@
                + replaced(chars@.skip(i + mark@.len()), token@, value@)));
            i += mark.len();
        } else {
            out.push(chars[i]);
            let ghost rest = chars@.skip(i as int);
            assert(rest.drop_first() == chars@.skip(i + 1));
            proof {
                if rest.len() < mark@.len() {
                    assert(replaced(rest, token@, value@) == rest);
                    assert(rest == seq![rest[0]] + rest.drop_first());
                }
            }
            assert(out@ + replaced(chars@.skip(i + 1), token@, value@) == before + (seq![rest[0]]
                + replaced(chars@.skip(i + 1), token@, value@)));
            i += 1;
        }
    }
    assert(chars@.skip(i as int) == Seq::<char>::empty());
    assert(out@ + Seq::<char>::empty() == out@);
    out
}

} // verus!
