//! What the launcher can launch: every desktop entry that the desktop lists
//! plus the configured AppImages.

use crate::config::{text_of, AppImageConfig};
use crate::matcher::{folded, Folded};
use crate::order::{sorts, take_top, Ordered};
use crate::path::{file_name, file_stem};
use crate::text::{chars_of, comes_no_later, is_white_space, not_after, white_space};
use crate::usage::Usage;
use crate::weight::{Weight, COMMENT, EXECUTABLE, GENERIC_NAME, KEYWORDS, WHOLE};
use vstd::prelude::*;

verus! {

/// One searchable field of an entry and how much a hit in it counts.
pub struct Field {
    pub folded: Folded,
    pub weight: Weight,
}

/// Everything the ranking needs about one launchable entry.
pub struct Entry {
    pub id: String,
    /// As displayed, with its original case and accents.
    pub name: String,
    /// The name is always the first field, at full weight.
    pub fields: Vec<Field>,
    pub count: u32,
    pub last_used: u64,
}

/// What a desktop entry says of itself. A `raw` value is the untranslated one.
pub struct DesktopInfo {
    pub id: Option<String>,
    pub name: String,
    pub generic_name: Option<String>,
    pub raw_generic_name: Option<String>,
    /// The path of the program that the entry starts.
    pub executable: String,
    pub keywords: Vec<String>,
    pub raw_keywords: Option<String>,
    pub description: Option<String>,
    /// Whether the entry wants to be listed on this desktop.
    pub should_show: bool,
}

/// What activating an entry actually launches; `D` stands for a desktop entry.
#[derive(Clone)]
pub enum Target<D> {
    Desktop(D),
    AppImage(AppImageConfig),
}

/// Every launchable entry, in folded-name order, with the usage store its
/// counts came from, which is also where the next launch gets recorded. What
/// `entries[i]` launches is `targets[i]`.
pub struct Catalog<D> {
    pub entries: Vec<Entry>,
    pub targets: Vec<Target<D>>,
    pub usage: Usage,
}

// ---------------------------------------------------------------------------
// Fields
// ---------------------------------------------------------------------------

/// A field as its folded text and its weight.
pub type FieldView = (Seq<char>, Weight);

impl View for Field {
    type V = FieldView;

    open spec fn view(&self) -> FieldView {
        (self.folded@, self.weight)
    }
}

impl Field {
    pub open spec fn wf(self) -> bool {
        self.folded.wf() && self.weight.wf()
    }
}

pub open spec fn field_of(raw: Seq<char>, parts: u32) -> FieldView {
    (folded(raw), Weight { parts })
}

pub fn field(raw: &str, weight: Weight) -> (r: Field)
    ensures
        r.folded.wf(),
        r.weight == weight,
        r@ == field_of(raw@, weight.parts),
{
    Field { folded: Folded::new(raw), weight }
}

// ---------------------------------------------------------------------------
// Entries
// ---------------------------------------------------------------------------

pub struct EntryView {
    pub id: Seq<char>,
    pub name: Seq<char>,
    pub fields: Seq<FieldView>,
    pub count: u32,
    pub last_used: u64,
}

pub open spec fn fields_view(fields: Seq<Field>) -> Seq<FieldView> {
    fields.map_values(|f: Field| f@)
}

impl View for Entry {
    type V = EntryView;

    open spec fn view(&self) -> EntryView {
        EntryView {
            id: self.id@,
            name: self.name@,
            fields: fields_view(self.fields@),
            count: self.count,
            last_used: self.last_used,
        }
    }
}

impl Entry {
    /// There is a first field, and every field is in order.
    pub open spec fn wf(self) -> bool {
        &&& self.fields@.len() >= 1
        &&& forall|i: int| 0 <= i < self.fields@.len() ==> (#[trigger] self.fields@[i]).wf()
    }

    /// Folded name, which is what keeps the list in alphabetical order.
    pub fn sort_key(&self) -> (r: &str)
        requires
            self.wf(),
        ensures
            r@ == self@.fields[0].0,
    {
        self.fields[0].folded.text.as_str()
    }
}

// ---------------------------------------------------------------------------
// Words
// ---------------------------------------------------------------------------

/// The characters that stand between words.
pub open spec fn parts_words(c: char) -> bool {
    c == ';' || white_space(c)
}

/// The longest runs of characters of which none stands between words.
pub open spec fn word_list(s: Seq<char>) -> Seq<Seq<char>>
    decreases s.len(),
{
    if s.len() == 0 {
        seq![]
    } else {
        let before = word_list(s.drop_last());
        let c = s.last();
        if parts_words(c) {
            before
        } else if s.len() >= 2 && !parts_words(s[s.len() - 2]) {
            before.drop_last().push(before.last().push(c))
        } else {
            before.push(seq![c])
        }
    }
}

/// The parts with a space between each two.
pub open spec fn spaced(parts: Seq<Seq<char>>) -> Seq<char>
    decreases parts.len(),
{
    if parts.len() == 0 {
        seq![]
    } else if parts.len() == 1 {
        parts[0]
    } else {
        spaced(parts.drop_last()).push(' ') + parts.last()
    }
}

pub open spec fn words_of(s: Seq<char>) -> Seq<char> {
    spaced(word_list(s))
}

/// A word has a character, and none that stands between words.
pub open spec fn is_word(word: Seq<char>) -> bool {
    &&& word.len() >= 1
    &&& forall|i: int| 0 <= i < word.len() ==> !parts_words(#[trigger] word[i])
}

proof fn lemma_word_list(s: Seq<char>)
    ensures
        forall|i: int| 0 <= i < word_list(s).len() ==> is_word(#[trigger] word_list(s)[i]),
        s.len() >= 1 && !parts_words(s.last()) ==> word_list(s).len() >= 1,
        word_list(s).len() <= s.len(),
    decreases s.len(),
{
    if s.len() > 0 {
        lemma_word_list(s.drop_last());
        let before = word_list(s.drop_last());
        let c = s.last();
        if !parts_words(c) && s.len() >= 2 && !parts_words(s[s.len() - 2]) {
            assert(s.drop_last().last() == s[s.len() - 2]);
            let longer = before.last().push(c);
            assert(is_word(before[before.len() - 1]));
            assert(is_word(longer));
        } else if !parts_words(c) {
            assert(is_word(seq![c]));
        }
    }
}

/// One more character on the last part is one more character in all.
proof fn lemma_spaced_push(parts: Seq<Seq<char>>, c: char)
    requires
        parts.len() >= 1,
    ensures
        spaced(parts.drop_last().push(parts.last().push(c))) == spaced(parts).push(c),
{
    let longer = parts.drop_last().push(parts.last().push(c));
    assert(longer.drop_last() == parts.drop_last());
    if parts.len() > 1 {
        assert(spaced(longer) =~= spaced(parts).push(c));
    }
}

/// A word behind a space is one more word.
proof fn lemma_word_behind(front: Seq<char>, word: Seq<char>)
    requires
        is_word(word),
        front.len() == 0 || parts_words(front.last()),
    ensures
        word_list(front + word) == word_list(front).push(word),
    decreases word.len(),
{
    let all = front + word;
    assert(all.drop_last() == front + word.drop_last());
    assert(all.last() == word.last());
    assert(!parts_words(word[word.len() - 1]));
    if word.len() == 1 {
        assert(all.drop_last() =~= front);
        if all.len() >= 2 {
            assert(all[all.len() - 2] == front.last());
        }
        assert(seq![word.last()] =~= word);
    } else {
        let shorter = word.drop_last();
        assert forall|i: int| 0 <= i < shorter.len() implies !parts_words(#[trigger] shorter[i]) by {
            assert(shorter[i] == word[i]);
        }
        lemma_word_behind(front, shorter);
        assert(all[all.len() - 2] == word[word.len() - 2]);
        let before = word_list(front + shorter);
        assert(before.drop_last() =~= word_list(front));
        assert(before.last().push(word.last()) =~= word);
    }
}

/// Words with a space between each two are read back as those words.
pub proof fn spaced_words_read_back(words: Seq<Seq<char>>)
    requires
        forall|i: int| 0 <= i < words.len() ==> is_word(#[trigger] words[i]),
    ensures
        word_list(spaced(words)) == words,
    decreases words.len(),
{
    if words.len() == 0 {
        assert(word_list(spaced(words)) =~= words);
    } else {
        let front = words.drop_last();
        let last = words.last();
        assert(is_word(words[words.len() - 1]));
        if words.len() == 1 {
            lemma_word_behind(seq![], last);
            assert(Seq::<char>::empty() + last =~= last);
            assert(word_list(Seq::<char>::empty()) =~= Seq::<Seq<char>>::empty());
            assert(word_list(spaced(words)) =~= words);
        } else {
            assert forall|i: int| 0 <= i < front.len() implies is_word(#[trigger] front[i]) by {
                assert(front[i] == words[i]);
            }
            spaced_words_read_back(front);
            let head = spaced(front).push(' ');
            assert(head.drop_last() =~= spaced(front));
            assert(head.last() == ' ');
            assert(word_list(head) == front);
            lemma_word_behind(head, last);
            assert(front.push(last) =~= words);
        }
    }
}

/// Plain words stay as they are: making plain words of them changes nothing.
pub proof fn words_of_words_are_the_same(s: Seq<char>)
    ensures
        words_of(words_of(s)) == words_of(s),
{
    lemma_word_list(s);
    spaced_words_read_back(word_list(s));
}

/// Text without a `;` and white space is one word.
pub proof fn unbroken_text_is_one_word(s: Seq<char>)
    requires
        s.len() > 0,
        forall|i: int| 0 <= i < s.len() ==> #[trigger] s[i] != ';' && !white_space(s[i]),
    ensures
        word_list(s) == seq![s],
{
    lemma_word_behind(seq![], s);
    assert(Seq::<char>::empty() + s =~= s);
    assert(word_list(Seq::<char>::empty()) =~= Seq::<Seq<char>>::empty());
    assert(Seq::<Seq<char>>::empty().push(s) =~= seq![s]);
}

/// A `;` or white space parts the words before it from those behind it.
pub proof fn words_part_at_separators(front: Seq<char>, c: char, back: Seq<char>)
    requires
        c == ';' || white_space(c),
    ensures
        word_list(front.push(c) + back) == word_list(front) + word_list(back),
    decreases back.len(),
{
    let head = front.push(c);
    let all = head + back;
    if back.len() == 0 {
        assert(all =~= head);
        assert(head.drop_last() =~= front);
        assert(word_list(back) =~= Seq::<Seq<char>>::empty());
        assert(word_list(front) + word_list(back) =~= word_list(front));
    } else {
        let less = back.drop_last();
        words_part_at_separators(front, c, less);
        assert(all.drop_last() =~= head + less);
        assert(all.last() == back.last());
        lemma_word_list(less);
        if back.len() >= 2 {
            assert(all[all.len() - 2] == back[back.len() - 2]);
            assert(less.last() == back[back.len() - 2]);
        } else {
            assert(all[all.len() - 2] == c);
        }
        assert(word_list(all) =~= word_list(front) + word_list(back));
    }
}

/// `Keywords=`-style text as plain words: split on `;` and white space, joined
/// with single spaces.
pub fn words(text: &str) -> (r: String)
    ensures
        r@ == words_of(text@),
{
    let chars = chars_of(text);
    let mut out = String::new();
    let mut inside: bool = false;
    let mut some: bool = false;
    let mut i: usize = 0;
    while i < chars.len()
        invariant
            chars@ == text@,
            i <= chars@.len(),
            out@ == words_of(text@.take(i as int)),
            inside == (i > 0 && !parts_words(text@[i - 1])),
            some == (word_list(text@.take(i as int)).len() > 0),
        decreases chars@.len() - i,
    {
        let c = chars[i];
        let ghost next = text@.take(i + 1);
        let ghost before = word_list(text@.take(i as int));
        proof {
            assert(next.drop_last() == text@.take(i as int));
            assert(next.last() == c);
            lemma_word_list(text@.take(i as int));
            if i > 0 {
                assert(next[next.len() - 2] == text@[i - 1]);
                assert(text@.take(i as int).last() == text@[i - 1]);
            }
        }
        if c == ';' || is_white_space(c) {
            inside = false;
        } else if inside {
            proof {
                lemma_spaced_push(before, c);
            }
            out.push(c);
        } else {
            proof {
                let more = before.push(seq![c]);
                assert(more.drop_last() == before);
                if before.len() == 0 {
                    assert(spaced(more) == seq![c]);
                    assert(Seq::<char>::empty().push(c) =~= seq![c]);
                } else {
                    assert(spaced(more) =~= spaced(before).push(' ').push(c));
                }
            }
            if some {
                out.push(' ');
            }
            out.push(c);
            inside = true;
            some = true;
        }
        i += 1;
    }
    assert(text@.take(text@.len() as int) == text@);
    out
}

/// The translated value of a key, followed by the untranslated one when that
/// says something else.
pub open spec fn both_of(translated: Seq<char>, untranslated: Option<Seq<char>>) -> Seq<char> {
    match untranslated {
        Some(raw) => {
            if raw.len() == 0 || raw == translated {
                translated
            } else if translated.len() == 0 {
                raw
            } else {
                translated + " "@ + raw
            }
        },
        None => translated,
    }
}

/// Both values of a key are found: the words are those of the translated value
/// and those of the untranslated one.
pub proof fn both_values_are_found(
    translated: Seq<char>,
    untranslated: Option<Seq<char>>,
    word: Seq<char>,
)
    ensures
        word_list(both_of(translated, untranslated)).contains(word) <==> word_list(
            translated,
        ).contains(word) || (untranslated is Some && word_list(untranslated.unwrap()).contains(
            word,
        )),
{
    if let Some(raw) = untranslated {
        reveal_strlit(" ");
        if raw.len() == 0 {
            assert(word_list(raw) =~= Seq::<Seq<char>>::empty());
        }
        if translated.len() == 0 {
            assert(word_list(translated) =~= Seq::<Seq<char>>::empty());
        }
        words_part_at_separators(translated, ' ', raw);
        assert(translated + " "@ + raw =~= translated.push(' ') + raw);
        lemma_in_either(word_list(translated), word_list(raw), word);
    }
}

proof fn lemma_in_either<T>(a: Seq<T>, b: Seq<T>, it: T)
    ensures
        (a + b).contains(it) <==> a.contains(it) || b.contains(it),
{
    if a.contains(it) {
        let i = choose|i: int| 0 <= i < a.len() && a[i] == it;
        assert((a + b)[i] == it);
    }
    if b.contains(it) {
        let i = choose|i: int| 0 <= i < b.len() && b[i] == it;
        assert((a + b)[a.len() + i] == it);
    }
}

/// The words of parts with a space between each two are the words of the
/// parts.
proof fn lemma_words_of_parts(parts: Seq<Seq<char>>, word: Seq<char>)
    ensures
        word_list(spaced(parts)).contains(word) <==> exists|i: int|
            0 <= i < parts.len() && word_list(#[trigger] parts[i]).contains(word),
    decreases parts.len(),
{
    if parts.len() == 0 {
        assert(word_list(spaced(parts)) =~= Seq::<Seq<char>>::empty());
    } else if parts.len() == 1 {
        assert(spaced(parts) == parts[0]);
    } else {
        let front = parts.drop_last();
        let n = parts.len() - 1;
        lemma_words_of_parts(front, word);
        words_part_at_separators(spaced(front), ' ', parts[n]);
        lemma_in_either(word_list(spaced(front)), word_list(parts[n]), word);
        if word_list(spaced(front)).contains(word) {
            let i = choose|i: int|
                0 <= i < front.len() && word_list(#[trigger] front[i]).contains(word);
            assert(parts[i] == front[i]);
        }
        if exists|i: int| 0 <= i < parts.len() && word_list(#[trigger] parts[i]).contains(word) {
            let i = choose|i: int|
                0 <= i < parts.len() && word_list(#[trigger] parts[i]).contains(word);
            if i < n {
                assert(front[i] == parts[i]);
            }
        }
    }
}

/// The translated value of a key, followed by the untranslated one when that
/// says something else. `GenericName=` and `Keywords=` are mostly written in
/// English and a translation replaces them outright, so searching only one of
/// the two would lose either the user's own language or the English terms.
pub fn with_untranslated(translated: String, untranslated: Option<String>) -> (r: String)
    ensures
        r@ == both_of(translated@, text_of(untranslated)),
        untranslated is None ==> r@ == translated@,
        untranslated matches Some(raw) ==> r@ == (if raw@.len() == 0 || raw@ == translated@ {
            translated@
        } else if translated@.len() == 0 {
            raw@
        } else {
            translated@ + " "@ + raw@
        }),
{
    match untranslated {
        Some(raw) => {
            if raw.as_str().is_empty() || raw == translated {
                translated
            } else if translated.as_str().is_empty() {
                raw
            } else {
                let mut both = translated;
                both.append(" ");
                both.append(raw.as_str());
                both
            }
        },
        None => translated,
    }
}

// ---------------------------------------------------------------------------
// Items
// ---------------------------------------------------------------------------

/// The parts of a `Keywords=` list, each as plain words.
pub open spec fn plain_keywords(keywords: Seq<String>) -> Seq<Seq<char>> {
    keywords.map_values(|word: String| words_of(word@))
}

/// Optional text as plain words.
pub open spec fn words_in(text: Option<String>) -> Option<Seq<char>> {
    match text {
        Some(text) => Some(words_of(text@)),
        None => None,
    }
}

/// The generic name as it is searched, in both languages.
pub open spec fn generic_of(info: DesktopInfo) -> Seq<char> {
    both_of(
        match info.generic_name {
            Some(name) => words_of(name@),
            None => seq![],
        },
        words_in(info.raw_generic_name),
    )
}

/// The keywords as they are searched, in both languages.
pub open spec fn keywords_of(info: DesktopInfo) -> Seq<char> {
    both_of(spaced(plain_keywords(info.keywords@)), words_in(info.raw_keywords))
}

/// A field of its own, unless there is nothing to search.
pub open spec fn field_if_any(raw: Option<Seq<char>>, parts: u32) -> Seq<FieldView> {
    match raw {
        Some(raw) if raw.len() > 0 => seq![field_of(raw, parts)],
        _ => seq![],
    }
}

/// The searchable fields of a desktop entry.
pub open spec fn desktop_fields(info: DesktopInfo) -> Seq<FieldView> {
    seq![field_of(info.name@, WHOLE)] + field_if_any(Some(generic_of(info)), GENERIC_NAME)
        + field_if_any(crate::path::file_name_of(info.executable@), EXECUTABLE) + field_if_any(
        Some(keywords_of(info)),
        KEYWORDS,
    ) + field_if_any(text_of(info.description), COMMENT)
}

/// How often and when `id` was launched, by what the store holds.
pub open spec fn launches_of(store: Map<Seq<char>, (u32, u64)>, id: Seq<char>) -> (u32, u64) {
    if store.contains_key(id) {
        store[id]
    } else {
        (0, 0)
    }
}

/// The entry of a desktop entry; one without an id has none.
pub open spec fn desktop_entry(
    store: Map<Seq<char>, (u32, u64)>,
    info: DesktopInfo,
) -> Option<EntryView> {
    match info.id {
        Some(id) => Some(
            EntryView {
                id: id@,
                name: info.name@,
                fields: desktop_fields(info),
                count: launches_of(store, id@).0,
                last_used: launches_of(store, id@).1,
            },
        ),
        None => None,
    }
}

/// The entry of an AppImage.
pub open spec fn appimage_entry(
    store: Map<Seq<char>, (u32, u64)>,
    app: AppImageConfig,
) -> EntryView {
    let id = "appimage:"@ + app.path@;
    EntryView {
        id,
        name: app.name@,
        fields: seq![field_of(app.name@, WHOLE)] + field_if_any(
            crate::path::file_stem_of(app.path@),
            EXECUTABLE,
        ),
        count: launches_of(store, id).0,
        last_used: launches_of(store, id).1,
    }
}

/// The words of an entry's generic name are those of the translated one and
/// those of the untranslated one.
pub proof fn generic_name_is_found_in_both_languages(info: DesktopInfo, word: Seq<char>)
    ensures
        word_list(generic_of(info)).contains(word) <==> {
            ||| info.generic_name is Some && word_list(info.generic_name.unwrap()@).contains(word)
            ||| info.raw_generic_name is Some && word_list(
                info.raw_generic_name.unwrap()@,
            ).contains(word)
        },
{
    let translated = match info.generic_name {
        Some(name) => words_of(name@),
        None => seq![],
    };
    both_values_are_found(translated, words_in(info.raw_generic_name), word);
    if let Some(name) = info.generic_name {
        lemma_words_are_kept(name@);
    } else {
        assert(word_list(translated) =~= Seq::<Seq<char>>::empty());
    }
    if let Some(raw) = info.raw_generic_name {
        lemma_words_are_kept(raw@);
    }
}

/// The words of an entry's keywords are those of each of its keywords and those
/// of the untranslated ones.
pub proof fn keywords_are_found_in_both_languages(info: DesktopInfo, word: Seq<char>)
    ensures
        word_list(keywords_of(info)).contains(word) <==> {
            ||| exists|i: int|
                0 <= i < info.keywords@.len() && word_list(
                    (#[trigger] info.keywords@[i])@,
                ).contains(word)
            ||| info.raw_keywords is Some && word_list(info.raw_keywords.unwrap()@).contains(word)
        },
{
    let parts = plain_keywords(info.keywords@);
    both_values_are_found(spaced(parts), words_in(info.raw_keywords), word);
    lemma_words_of_parts(parts, word);
    assert forall|i: int| 0 <= i < parts.len() implies word_list(#[trigger] parts[i]) == word_list(
        info.keywords@[i]@,
    ) by {
        lemma_words_are_kept(info.keywords@[i]@);
    }
    if exists|i: int| 0 <= i < parts.len() && word_list(#[trigger] parts[i]).contains(word) {
        let i = choose|i: int| 0 <= i < parts.len() && word_list(#[trigger] parts[i]).contains(word);
        assert(word_list(info.keywords@[i]@).contains(word));
    }
    if exists|i: int|
        0 <= i < info.keywords@.len() && word_list((#[trigger] info.keywords@[i])@).contains(word) {
        let i = choose|i: int|
            0 <= i < info.keywords@.len() && word_list((#[trigger] info.keywords@[i])@).contains(
                word,
            );
        assert(word_list(parts[i]).contains(word));
    }
    if let Some(raw) = info.raw_keywords {
        lemma_words_are_kept(raw@);
    }
}

proof fn lemma_words_are_kept(s: Seq<char>)
    ensures
        word_list(words_of(s)) == word_list(s),
{
    lemma_word_list(s);
    spaced_words_read_back(word_list(s));
}

/// The fields of a desktop entry: its name first, at full weight, then
/// whatever of generic name, program, keywords and comment there is, each at
/// its own weight and whatever the others are, and nothing else.
pub open spec fn searches_everything(info: DesktopInfo, fields: Seq<FieldView>) -> bool {
    &&& fields.len() >= 1
    &&& fields[0] == (folded(info.name@), Weight { parts: 33_554_432 })
    &&& generic_of(info).len() > 0 ==> fields.contains(
        (folded(generic_of(info)), Weight { parts: 21_810_380 }),
    )
    &&& crate::path::file_name_of(info.executable@) is Some ==> fields.contains(
        (
            folded(crate::path::file_name_of(info.executable@).unwrap()),
            Weight { parts: 20_132_660 },
        ),
    )
    &&& keywords_of(info).len() > 0 ==> fields.contains(
        (folded(keywords_of(info)), Weight { parts: 15_099_494 }),
    )
    &&& info.description is Some && info.description.unwrap()@.len() > 0 ==> fields.contains(
        (folded(info.description.unwrap()@), Weight { parts: 11_744_051 }),
    )
    &&& forall|k: int|
        1 <= k < fields.len() ==> {
            ||| #[trigger] fields[k] == (folded(generic_of(info)), Weight { parts: 21_810_380 })
            ||| crate::path::file_name_of(info.executable@) is Some && fields[k] == (
                folded(crate::path::file_name_of(info.executable@).unwrap()),
                Weight { parts: 20_132_660 },
            )
            ||| fields[k] == (folded(keywords_of(info)), Weight { parts: 15_099_494 })
            ||| info.description is Some && fields[k] == (
                folded(info.description.unwrap()@),
                Weight { parts: 11_744_051 },
            )
        }
}

/// Whatever else a desktop entry says, its comment is searched.
pub proof fn comment_is_searched(store: Map<Seq<char>, (u32, u64)>, info: DesktopInfo)
    requires
        info.id is Some,
        info.description is Some,
        info.description.unwrap()@.len() > 0,
    ensures
        desktop_entry(store, info) is Some,
        desktop_entry(store, info).unwrap().fields.contains(
            (folded(info.description.unwrap()@), Weight { parts: 11_744_051 }),
        ),
{
    every_source_is_searched(info);
}

/// Whatever else a desktop entry says, its keywords are searched.
pub proof fn keywords_are_searched(store: Map<Seq<char>, (u32, u64)>, info: DesktopInfo)
    requires
        info.id is Some,
        keywords_of(info).len() > 0,
    ensures
        desktop_entry(store, info) is Some,
        desktop_entry(store, info).unwrap().fields.contains(
            (folded(keywords_of(info)), Weight { parts: 15_099_494 }),
        ),
{
    every_source_is_searched(info);
}

/// Whatever else a desktop entry says, the name of its program is searched.
pub proof fn program_is_searched(store: Map<Seq<char>, (u32, u64)>, info: DesktopInfo)
    requires
        info.id is Some,
        crate::path::file_name_of(info.executable@) is Some,
    ensures
        desktop_entry(store, info) is Some,
        desktop_entry(store, info).unwrap().fields.contains(
            (
                folded(crate::path::file_name_of(info.executable@).unwrap()),
                Weight { parts: 20_132_660 },
            ),
        ),
{
    every_source_is_searched(info);
}

/// Whatever else a desktop entry says, its generic name is searched.
pub proof fn generic_name_is_searched(store: Map<Seq<char>, (u32, u64)>, info: DesktopInfo)
    requires
        info.id is Some,
        generic_of(info).len() > 0,
    ensures
        desktop_entry(store, info) is Some,
        desktop_entry(store, info).unwrap().fields.contains(
            (folded(generic_of(info)), Weight { parts: 21_810_380 }),
        ),
{
    every_source_is_searched(info);
}

/// The name is the first field of a desktop entry, at full weight.
pub proof fn name_is_searched_first(store: Map<Seq<char>, (u32, u64)>, info: DesktopInfo)
    requires
        info.id is Some,
    ensures
        desktop_entry(store, info) is Some,
        desktop_entry(store, info).unwrap().id == info.id.unwrap()@,
        desktop_entry(store, info).unwrap().name == info.name@,
        desktop_entry(store, info).unwrap().fields.len() >= 1,
        desktop_entry(store, info).unwrap().fields[0] == (
            folded(info.name@),
            Weight { parts: 33_554_432 },
        ),
{
    every_source_is_searched(info);
}

/// Every source is searched, independently of the others, and nothing else is.
pub proof fn every_source_is_searched(info: DesktopInfo)
    ensures
        searches_everything(info, desktop_fields(info)),
{
    let name = seq![field_of(info.name@, WHOLE)];
    let generic = field_if_any(Some(generic_of(info)), GENERIC_NAME);
    let program = field_if_any(crate::path::file_name_of(info.executable@), EXECUTABLE);
    let keywords = field_if_any(Some(keywords_of(info)), KEYWORDS);
    let comment = field_if_any(text_of(info.description), COMMENT);
    let fields = desktop_fields(info);
    assert(fields == name + generic + program + keywords + comment);
    if generic_of(info).len() > 0 {
        assert(fields[1] == field_of(generic_of(info), GENERIC_NAME));
    }
    if let Some(file) = crate::path::file_name_of(info.executable@) {
        assert(fields[1int + generic.len()] == program[0]);
    }
    if keywords_of(info).len() > 0 {
        assert(fields[1int + generic.len() + program.len()] == keywords[0]);
    }
    if info.description is Some && info.description.unwrap()@.len() > 0 {
        assert(fields[1int + generic.len() + program.len() + keywords.len()] == comment[0]);
    }
    assert forall|k: int| 1 <= k < fields.len() implies {
        ||| #[trigger] fields[k] == (folded(generic_of(info)), Weight { parts: 21_810_380 })
        ||| crate::path::file_name_of(info.executable@) is Some && fields[k] == (
            folded(crate::path::file_name_of(info.executable@).unwrap()),
            Weight { parts: 20_132_660 },
        )
        ||| fields[k] == (folded(keywords_of(info)), Weight { parts: 15_099_494 })
        ||| info.description is Some && fields[k] == (
            folded(info.description.unwrap()@),
            Weight { parts: 11_744_051 },
        )
    } by {
        let a = 1 + generic.len();
        let b = a + program.len();
        let c = b + keywords.len();
        if k < a {
            assert(fields[k] == generic[k - 1]);
        } else if k < b {
            assert(fields[k] == program[k - a]);
        } else if k < c {
            assert(fields[k] == keywords[k - b]);
        } else {
            assert(fields[k] == comment[k - c]);
        }
    }
}

/// Search `raw` too, unless it is empty.
fn push_field(fields: &mut Vec<Field>, raw: &str, weight: Weight)
    requires
        weight.wf(),
    ensures
        fields_view(final(fields)@) == fields_view(old(fields)@) + field_if_any(
            Some(raw@),
            weight.parts,
        ),
        (forall|i: int| 0 <= i < old(fields)@.len() ==> (#[trigger] old(fields)@[i]).wf())
            ==> (forall|i: int| 0 <= i < final(fields)@.len() ==> (#[trigger] final(fields)@[i]).wf()),
        final(fields)@.len() >= old(fields)@.len(),
{
    if !raw.is_empty() {
        fields.push(field(raw, weight));
    }
    assert(fields_view(fields@) =~= fields_view(old(fields)@) + field_if_any(
        Some(raw@),
        weight.parts,
    ));
}

/// The parts with a space between each two.
fn join_spaced(parts: &Vec<String>) -> (r: String)
    ensures
        r@ == spaced(parts@.map_values(|part: String| part@)),
{
    let ghost texts = parts@.map_values(|part: String| part@);
    let mut out = String::new();
    let mut i: usize = 0;
    assert(spaced(texts.take(0)) == Seq::<char>::empty());
    while i < parts.len()
        invariant
            i <= parts@.len(),
            texts == parts@.map_values(|part: String| part@),
            out@ == spaced(texts.take(i as int)),
        decreases parts@.len() - i,
    {
        proof {
            assert(texts.take(i + 1).drop_last() == texts.take(i as int));
            assert(texts.take(i + 1).last() == parts@[i as int]@);
            if i == 0 {
                assert(out@ + parts@[0]@ =~= parts@[0]@);
            }
        }
        if i > 0 {
            out.append(" ");
            proof {
                reveal_strlit(" ");
                let before = spaced(texts.take(i as int));
                assert(before + " "@ =~= before.push(' '));
            }
        }
        out.append(parts[i].as_str());
        i += 1;
    }
    assert(texts.take(texts.len() as int) == texts);
    out
}

/// Each part of a `Keywords=` list as plain words, joined with spaces.
fn join_words(keywords: &Vec<String>) -> (r: String)
    ensures
        r@ == spaced(plain_keywords(keywords@)),
{
    let mut parts: Vec<String> = Vec::new();
    let mut i: usize = 0;
    while i < keywords.len()
        invariant
            i <= keywords@.len(),
            parts@.len() == i,
            forall|k: int| 0 <= k < i ==> (#[trigger] parts@[k])@ == words_of(keywords@[k]@),
        decreases keywords@.len() - i,
    {
        parts.push(words(keywords[i].as_str()));
        i += 1;
    }
    assert(parts@.map_values(|part: String| part@) =~= plain_keywords(keywords@));
    join_spaced(&parts)
}

fn optional_words(text: &Option<String>) -> (r: Option<String>)
    ensures
        text_of(r) == words_in(*text),
{
    match text {
        Some(text) => Some(words(text.as_str())),
        None => None,
    }
}

/// The entry of a desktop entry, with its launches by `usage`.
pub fn desktop_item(usage: &Usage, info: &DesktopInfo) -> (r: Option<Entry>)
    requires
        usage.wf(),
    ensures
        match r {
            Some(entry) => entry.wf() && desktop_entry(usage@, *info) == Some(entry@),
            None => desktop_entry(usage@, *info) is None,
        },
        r is Some <==> info.id is Some,
        r matches Some(entry) ==> {
            &&& entry.id@ == info.id.unwrap()@
            &&& entry.name@ == info.name@
            &&& (entry.count, entry.last_used) == (if usage@.contains_key(entry.id@) {
                usage@[entry.id@]
            } else {
                (0u32, 0u64)
            })
            &&& searches_everything(*info, entry@.fields)
        },
        r is Some && info.description is Some && info.description.unwrap()@.len() > 0
            ==> r.unwrap()@.fields.contains(
            (folded(info.description.unwrap()@), Weight { parts: 11_744_051 }),
        ),
{
    proof {
        every_source_is_searched(*info);
    }
    let id: String = match &info.id {
        Some(id) => id.clone(),
        None => {
            return None;
        },
    };
    let mut fields: Vec<Field> = Vec::new();
    fields.push(field(info.name.as_str(), Weight::name()));
    assert(fields_view(fields@) =~= seq![field_of(info.name@, WHOLE)]);
    let generic_name: String = match &info.generic_name {
        Some(name) => words(name.as_str()),
        None => String::new(),
    };
    let generic = with_untranslated(generic_name, optional_words(&info.raw_generic_name));
    push_field(&mut fields, generic.as_str(), Weight::generic_name());
    match file_name(info.executable.as_str()) {
        Some(name) => push_field(&mut fields, name.as_str(), Weight::executable()),
        None => {},
    }
    assert(fields_view(fields@) == seq![field_of(info.name@, WHOLE)] + field_if_any(
        Some(generic_of(*info)),
        GENERIC_NAME,
    ) + field_if_any(crate::path::file_name_of(info.executable@), EXECUTABLE));
    let keywords = with_untranslated(
        join_words(&info.keywords),
        optional_words(&info.raw_keywords),
    );
    push_field(&mut fields, keywords.as_str(), Weight::keywords());
    match &info.description {
        Some(comment) => push_field(&mut fields, comment.as_str(), Weight::comment()),
        None => {},
    }
    assert(fields_view(fields@) == desktop_fields(*info));
    let (count, last_used) = usage.get(id.as_str());
    Some(Entry { id, name: info.name.clone(), fields, count, last_used })
}

/// The entry of an AppImage, with its launches by `usage`.
pub fn appimage_item(usage: &Usage, app: &AppImageConfig) -> (r: Entry)
    requires
        usage.wf(),
    ensures
        r.wf(),
        r@ == appimage_entry(usage@, *app),
        r.id@ == "appimage:"@ + app.path@,
        r.name@ == app.name@,
        (r.count, r.last_used) == (if usage@.contains_key(r.id@) {
            usage@[r.id@]
        } else {
            (0u32, 0u64)
        }),
        r@.fields[0] == (folded(app.name@), Weight { parts: 33_554_432 }),
        crate::path::file_stem_of(app.path@) is None ==> r@.fields.len() == 1,
        crate::path::file_stem_of(app.path@) is Some ==> r@.fields.len() == 2 && r@.fields[1] == (
            folded(crate::path::file_stem_of(app.path@).unwrap()),
            Weight { parts: 20_132_660 },
        ),
{
    let mut id: String = "appimage:".to_owned();
    id.append(app.path.as_str());
    let mut fields: Vec<Field> = Vec::new();
    fields.push(field(app.name.as_str(), Weight::name()));
    assert(fields_view(fields@) =~= seq![field_of(app.name@, WHOLE)]);
    match file_stem(app.path.as_str()) {
        Some(stem) => push_field(&mut fields, stem.as_str(), Weight::executable()),
        None => {},
    }
    assert(fields_view(fields@) =~= appimage_entry(usage@, *app).fields);
    let (count, last_used) = usage.get(id.as_str());
    Entry { id, name: app.name.clone(), fields, count, last_used }
}

// ---------------------------------------------------------------------------
// The catalog
// ---------------------------------------------------------------------------

/// The desktop entries that are listed, each with what it launches: those that
/// want to be shown and have an id.
pub open spec fn desktop_pool<D>(
    store: Map<Seq<char>, (u32, u64)>,
    listed: Seq<(DesktopInfo, D)>,
) -> Seq<(EntryView, Target<D>)>
    decreases listed.len(),
{
    if listed.len() == 0 {
        seq![]
    } else {
        let (info, desktop) = listed.last();
        let before = desktop_pool(store, listed.drop_last());
        match desktop_entry(store, info) {
            Some(entry) if info.should_show => before.push((entry, Target::Desktop(desktop))),
            _ => before,
        }
    }
}

/// The AppImages, each with what it launches.
pub open spec fn appimage_pool<D>(
    store: Map<Seq<char>, (u32, u64)>,
    appimages: Seq<AppImageConfig>,
) -> Seq<(EntryView, Target<D>)> {
    Seq::new(
        appimages.len(),
        |i: int| (appimage_entry(store, appimages[i]), Target::AppImage(appimages[i])),
    )
}

/// Everything that goes into the catalog: the desktop entries, then the
/// AppImages.
pub open spec fn pool<D>(
    store: Map<Seq<char>, (u32, u64)>,
    listed: Seq<(DesktopInfo, D)>,
    appimages: Seq<AppImageConfig>,
) -> Seq<(EntryView, Target<D>)> {
    desktop_pool(store, listed) + appimage_pool(store, appimages)
}

/// The folded name of an item.
pub open spec fn key_of<D>(item: (EntryView, Target<D>)) -> Seq<char> {
    item.0.fields[0].0
}

/// Item `x` of the pool goes before item `y`: by folded name, and by place in
/// the pool where that is the same.
pub open spec fn item_first<D>(pool: Seq<(EntryView, Target<D>)>, x: int, y: int) -> bool {
    &&& not_after(key_of(pool[x]), key_of(pool[y]))
    &&& key_of(pool[x]) == key_of(pool[y]) ==> x < y
}

/// `entries` and `targets` hold the pool in folded-name order, `from[k]` being
/// the place in the pool of what stands at `k`.
pub open spec fn arranged<D>(
    pool: Seq<(EntryView, Target<D>)>,
    entries: Seq<Entry>,
    targets: Seq<Target<D>>,
    from: Seq<int>,
) -> bool {
    &&& entries.len() == pool.len()
    &&& targets.len() == pool.len()
    &&& from.len() == pool.len()
    &&& crate::order::permutes(from)
    &&& forall|k: int|
        #![trigger entries[k]]
        #![trigger targets[k]]
        0 <= k < pool.len() ==> entries[k]@ == pool[from[k]].0 && targets[k] == pool[from[k]].1
    &&& forall|j: int, k: int|
        0 <= j < k < from.len() ==> item_first(pool, #[trigger] from[j], #[trigger] from[k])
}

/// The order of the catalog is determined by what goes into it.
pub proof fn catalog_is_determined<D>(
    pool: Seq<(EntryView, Target<D>)>,
    a: (Seq<Entry>, Seq<Target<D>>, Seq<int>),
    b: (Seq<Entry>, Seq<Target<D>>, Seq<int>),
)
    requires
        arranged(pool, a.0, a.1, a.2),
        arranged(pool, b.0, b.1, b.2),
    ensures
        a.0.map_values(|e: Entry| e@) == b.0.map_values(|e: Entry| e@),
        a.1 == b.1,
{
    let first = |x: int, y: int| item_first(pool, x, y);
    assert forall|x: int, y: int| #[trigger] first(x, y) implies !first(y, x) by {
        if first(y, x) {
            crate::text::not_after_antisymmetric(key_of(pool[x]), key_of(pool[y]));
        }
    }
    crate::order::one_order(a.2, b.2, first);
    assert(a.0.map_values(|e: Entry| e@) =~= b.0.map_values(|e: Entry| e@)) by {
        assert forall|k: int| 0 <= k < a.0.len() implies a.0[k]@ == b.0[k]@ by {}
    }
    assert(a.1 =~= b.1);
}

/// One more desktop entry that is listed is one more item behind the others,
/// if it wants to be shown and has an id, and none if not.
pub proof fn listed_entries_are_taken_one_by_one<D>(
    store: Map<Seq<char>, (u32, u64)>,
    listed: Seq<(DesktopInfo, D)>,
    info: DesktopInfo,
    desktop: D,
)
    ensures
        desktop_pool(store, listed.push((info, desktop))) == if info.should_show && info.id is Some {
            desktop_pool(store, listed).push(
                (desktop_entry(store, info).unwrap(), Target::Desktop(desktop)),
            )
        } else {
            desktop_pool(store, listed)
        },
{
    assert(listed.push((info, desktop)).drop_last() == listed);
}

/// Every AppImage is an item, behind the desktop entries.
pub proof fn appimages_follow_the_desktop_entries<D>(
    store: Map<Seq<char>, (u32, u64)>,
    listed: Seq<(DesktopInfo, D)>,
    appimages: Seq<AppImageConfig>,
    i: int,
)
    requires
        0 <= i < appimages.len(),
    ensures
        pool(store, listed, appimages).len() == desktop_pool(store, listed).len()
            + appimages.len(),
        pool(store, listed, appimages)[desktop_pool(store, listed).len() + i] == (
            appimage_entry(store, appimages[i]),
            Target::<D>::AppImage(appimages[i]),
        ),
{
}

/// The catalog has an entry that launches `target` and looks like `entry`.
pub open spec fn lists_item<D>(
    entries: Seq<Entry>,
    targets: Seq<Target<D>>,
    entry: EntryView,
    target: Target<D>,
) -> bool {
    exists|k: int|
        0 <= k < entries.len() && (#[trigger] entries[k])@ == entry && targets[k] == target
}

/// Everything that can be launched is in the catalog: each desktop entry that
/// wants to be shown and has an id, and each AppImage.
pub proof fn everything_is_in_the_catalog<D>(
    store: Map<Seq<char>, (u32, u64)>,
    listed: Seq<(DesktopInfo, D)>,
    appimages: Seq<AppImageConfig>,
    entries: Seq<Entry>,
    targets: Seq<Target<D>>,
    from: Seq<int>,
)
    requires
        arranged(pool(store, listed, appimages), entries, targets, from),
    ensures
        forall|i: int|
            0 <= i < listed.len() && (#[trigger] listed[i]).0.should_show && listed[i].0.id is Some
                ==> lists_item(
                entries,
                targets,
                desktop_entry(store, listed[i].0).unwrap(),
                Target::Desktop(listed[i].1),
            ),
        forall|i: int|
            0 <= i < appimages.len() ==> lists_item(
                entries,
                targets,
                appimage_entry(store, #[trigger] appimages[i]),
                Target::AppImage(appimages[i]),
            ),
        forall|j: int, k: int|
            #![trigger entries[j], entries[k]]
            0 <= j < k < entries.len() ==> not_after(
                entries[j]@.fields[0].0,
                entries[k]@.fields[0].0,
            ),
{
    let all = pool(store, listed, appimages);
    assert forall|i: int|
        0 <= i < listed.len() && (#[trigger] listed[i]).0.should_show && listed[i].0.id
            is Some implies lists_item(
        entries,
        targets,
        desktop_entry(store, listed[i].0).unwrap(),
        Target::Desktop(listed[i].1),
    ) by {
        let p = lemma_in_desktop_pool(store, listed, i);
        assert(all[p] == desktop_pool(store, listed)[p]);
        crate::order::permutation_reaches_all(from, p);
        let k = choose|k: int| 0 <= k < from.len() && #[trigger] from[k] == p;
        assert(entries[k]@ == all[p].0);
    }
    assert forall|i: int| 0 <= i < appimages.len() implies lists_item(
        entries,
        targets,
        appimage_entry(store, #[trigger] appimages[i]),
        Target::AppImage(appimages[i]),
    ) by {
        appimages_follow_the_desktop_entries(store, listed, appimages, i);
        let p = desktop_pool(store, listed).len() + i;
        crate::order::permutation_reaches_all(from, p);
        let k = choose|k: int| 0 <= k < from.len() && #[trigger] from[k] == p;
        assert(entries[k]@ == all[p].0);
    }
    assert forall|j: int, k: int|
        #![trigger entries[j], entries[k]]
        0 <= j < k < entries.len() implies not_after(
        entries[j]@.fields[0].0,
        entries[k]@.fields[0].0,
    ) by {
        assert(item_first(all, from[j], from[k]));
    }
}

proof fn lemma_in_desktop_pool<D>(
    store: Map<Seq<char>, (u32, u64)>,
    listed: Seq<(DesktopInfo, D)>,
    i: int,
) -> (p: int)
    requires
        0 <= i < listed.len(),
        listed[i].0.should_show,
        listed[i].0.id is Some,
    ensures
        0 <= p < desktop_pool(store, listed).len(),
        desktop_pool(store, listed)[p] == (
            desktop_entry(store, listed[i].0).unwrap(),
            Target::Desktop(listed[i].1),
        ),
    decreases listed.len(),
{
    let front = listed.drop_last();
    if i == listed.len() - 1 {
        desktop_pool(store, front).len() as int
    } else {
        assert(front[i] == listed[i]);
        lemma_in_desktop_pool(store, front, i)
    }
}

/// An entry with what it launches.
struct Item<D> {
    entry: Entry,
    target: Target<D>,
}

impl<D> Item<D> {
    spec fn shape(self) -> (EntryView, Target<D>) {
        (self.entry@, self.target)
    }

    /// The characters of the folded name.
    spec fn letters(self) -> Seq<char> {
        if self.entry.fields@.len() == 0 {
            seq![]
        } else {
            self.entry.fields@[0].folded.chars@
        }
    }
}

impl<D> Ordered for Item<D> {
    closed spec fn le(self, other: Self) -> bool {
        not_after(self.letters(), other.letters())
    }

    proof fn le_total(a: Self, b: Self) {
        crate::text::not_after_total(a.letters(), b.letters());
    }

    proof fn le_transitive(a: Self, b: Self, c: Self) {
        crate::text::not_after_transitive(a.letters(), b.letters(), c.letters());
    }

    fn at_most(&self, other: &Self) -> (r: bool) {
        if self.entry.fields.len() == 0 {
            true
        } else if other.entry.fields.len() == 0 {
            self.entry.fields[0].folded.chars.len() == 0
        } else {
            comes_no_later(
                self.entry.fields[0].folded.chars.as_slice(),
                other.entry.fields[0].folded.chars.as_slice(),
            )
        }
    }
}

spec fn shapes<D>(items: Seq<Item<D>>) -> Seq<(EntryView, Target<D>)> {
    items.map_values(|item: Item<D>| item.shape())
}

spec fn all_wf<D>(items: Seq<Item<D>>) -> bool {
    forall|i: int| 0 <= i < items.len() ==> (#[trigger] items[i]).entry.wf()
}

/// A sorted list of items is the pool arranged.
proof fn lemma_sorted_is_arranged<D>(
    items: Seq<Item<D>>,
    sorted: Seq<Item<D>>,
    from: Seq<int>,
    entries: Seq<Entry>,
    targets: Seq<Target<D>>,
)
    requires
        all_wf(items),
        sorts(items, sorted, from),
        entries.len() == sorted.len(),
        targets.len() == sorted.len(),
        forall|k: int|
            0 <= k < sorted.len() ==> entries[k] == (#[trigger] sorted[k]).entry && targets[k]
                == sorted[k].target,
    ensures
        arranged(shapes(items), entries, targets, from),
        forall|k: int| 0 <= k < entries.len() ==> (#[trigger] entries[k]).wf(),
{
    let all = shapes(items);
    assert forall|k: int|
        #![trigger entries[k]]
        #![trigger targets[k]]
        0 <= k < all.len() implies entries[k]@ == all[from[k]].0 && targets[k]
        == all[from[k]].1 by {
        assert(sorted[k] == items[from[k]]);
    }
    assert forall|k: int| 0 <= k < entries.len() implies (#[trigger] entries[k]).wf() by {
        assert(sorted[k] == items[from[k]]);
    }
    assert forall|j: int, k: int| 0 <= j < k < from.len() implies item_first(
        all,
        #[trigger] from[j],
        #[trigger] from[k],
    ) by {
        let (x, y) = (items[from[j]], items[from[k]]);
        assert(sorted[j] == x && sorted[k] == y);
        assert(x.entry.wf() && y.entry.wf());
        assert(x.entry.fields@[0].wf() && y.entry.fields@[0].wf());
        assert(x.letters() == key_of(all[from[j]]));
        assert(y.letters() == key_of(all[from[k]]));
        if x.letters() == y.letters() {
            crate::text::not_after_total(x.letters(), y.letters());
        }
    }
}

impl<D> Catalog<D> {
    /// Every entry is in order and has its target.
    pub open spec fn wf(self) -> bool {
        &&& self.usage.wf()
        &&& self.targets@.len() == self.entries@.len()
        &&& forall|i: int| 0 <= i < self.entries@.len() ==> (#[trigger] self.entries@[i]).wf()
    }

    /// A catalog with nothing in it.
    pub fn new() -> (r: Self)
        ensures
            r.wf(),
            r.entries@.len() == 0,
            r.usage@ == Map::<Seq<char>, (u32, u64)>::empty(),
    {
        Catalog { entries: Vec::new(), targets: Vec::new(), usage: Usage::new() }
    }

    /// Take every desktop entry that is `listed` and wants to be shown, then
    /// add the configured AppImages.
    pub fn load(
        usage: Usage,
        listed: Vec<(DesktopInfo, D)>,
        appimages: Vec<AppImageConfig>,
    ) -> (r: Self)
        requires
            usage.wf(),
        ensures
            r.wf(),
            r.usage == usage,
            exists|from: Seq<int>| #[trigger]
                arranged(pool(usage@, listed@, appimages@), r.entries@, r.targets@, from),
            forall|i: int|
                0 <= i < listed@.len() && (#[trigger] listed@[i]).0.should_show
                    && listed@[i].0.id is Some ==> lists_item(
                    r.entries@,
                    r.targets@,
                    desktop_entry(usage@, listed@[i].0).unwrap(),
                    Target::Desktop(listed@[i].1),
                ),
            forall|i: int|
                0 <= i < appimages@.len() ==> lists_item(
                    r.entries@,
                    r.targets@,
                    appimage_entry(usage@, #[trigger] appimages@[i]),
                    Target::AppImage(appimages@[i]),
                ),
            forall|j: int, k: int|
                #![trigger r.entries@[j], r.entries@[k]]
                0 <= j < k < r.entries@.len() ==> not_after(
                    r.entries@[j]@.fields[0].0,
                    r.entries@[k]@.fields[0].0,
                ),
    {
        let mut items: Vec<Item<D>> = Vec::new();
        let ghost all = listed@;
        for pair in it: listed
            invariant
                usage.wf(),
                it.seq() == all,
                all_wf(items@),
                shapes(items@) == desktop_pool(usage@, all.take(it.index() as int)),
        {
            let (info, desktop) = pair;
            let ghost k = it.index() as int;
            let ghost before = items@;
            proof {
                assert(all.take(k + 1).drop_last() == all.take(k));
                assert(all.take(k + 1).last() == all[k]);
            }
            if info.should_show {
                if let Some(entry) = desktop_item(&usage, &info) {
                    items.push(Item { entry, target: Target::Desktop(desktop) });
                    assert(shapes(items@) =~= shapes(before).push(
                        (entry@, Target::Desktop(desktop)),
                    ));
                }
            }
        }
        assert(all.take(all.len() as int) == all);
        let ghost desktops = items@;
        let ghost apps = appimages@;
        for app in it: appimages
            invariant
                usage.wf(),
                it.seq() == apps,
                all_wf(items@),
                shapes(items@) == shapes(desktops) + appimage_pool::<D>(
                    usage@,
                    apps.take(it.index() as int),
                ),
        {
            let ghost k = it.index() as int;
            let ghost before = items@;
            let entry = appimage_item(&usage, &app);
            items.push(Item { entry, target: Target::AppImage(app) });
            proof {
                let last = (entry@, Target::<D>::AppImage(app));
                assert(shapes(items@) =~= shapes(before).push(last));
                assert(appimage_pool::<D>(usage@, apps.take(k + 1)) =~= appimage_pool::<D>(
                    usage@,
                    apps.take(k),
                ).push(last));
                assert(shapes(items@) =~= shapes(desktops) + appimage_pool::<D>(
                    usage@,
                    apps.take(k + 1),
                ));
            }
        }
        assert(apps.take(apps.len() as int) == apps);
        let ghost found = items@;
        let many: usize = items.len();
        let sorted = take_top(items, many);
        let ghost ordered = sorted@;
        let mut entries: Vec<Entry> = Vec::new();
        let mut targets: Vec<Target<D>> = Vec::new();
        for item in it: sorted
            invariant
                it.seq() == ordered,
                entries@.len() == it.index(),
                targets@.len() == it.index(),
                forall|k: int|
                    0 <= k < it.index() ==> entries@[k] == (#[trigger] ordered[k]).entry
                        && targets@[k] == ordered[k].target,
        {
            entries.push(item.entry);
            targets.push(item.target);
        }
        let r = Catalog { entries, targets, usage };
        proof {
            let whole = choose|whole: Seq<Item<D>>|
                #![trigger crate::order::is_sorted_from(found, whole)]
                crate::order::is_sorted_from(found, whole) && ordered == whole.take(
                    ordered.len() as int,
                );
            let from = choose|from: Seq<int>| sorts(found, whole, from);
            assert(whole.take(ordered.len() as int) =~= whole);
            lemma_sorted_is_arranged(found, ordered, from, r.entries@, r.targets@);
            assert(arranged(pool(usage@, all, apps), r.entries@, r.targets@, from));
            everything_is_in_the_catalog(usage@, all, apps, r.entries@, r.targets@, from);
        }
        r
    }
}

// ---------------------------------------------------------------------------
// The environment of what is launched
// ---------------------------------------------------------------------------

/// The variables the launcher overrides for its own window, each with the
/// value it had before, so an application launched from here gets the original
/// environment back and still follows the system theme.
pub struct LaunchEnv<V> {
    pub saved: Vec<(&'static str, Option<V>)>,
}

/// What gives a variable its original value back.
pub enum Restore<'a, V> {
    Put(&'static str, &'a V),
    Remove(&'static str),
}

pub open spec fn restore_of<'a, V>(name: &'static str, original: &'a Option<V>) -> Restore<'a, V> {
    match original {
        Some(value) => Restore::Put(name, value),
        None => Restore::Remove(name),
    }
}

/// The defaults whose variable had no value.
pub open spec fn unset_defaults<V>(
    defaults: Seq<(&'static str, &'static str)>,
    originals: Seq<Option<V>>,
) -> Seq<(&'static str, &'static str)>
    decreases defaults.len(),
{
    if defaults.len() == 0 {
        seq![]
    } else {
        let before = unset_defaults(defaults.drop_last(), originals.drop_last());
        if originals.last() is None {
            before.push(defaults.last())
        } else {
            before
        }
    }
}

/// An environment after each of the steps.
pub open spec fn applied<'a, V>(
    env: Map<Seq<char>, V>,
    steps: Seq<Restore<'a, V>>,
) -> Map<Seq<char>, V>
    decreases steps.len(),
{
    if steps.len() == 0 {
        env
    } else {
        let before = applied(env, steps.drop_last());
        match steps.last() {
            Restore::Put(name, value) => before.insert(name@, *value),
            Restore::Remove(name) => before.remove(name@),
        }
    }
}

/// What `env` holds for the variable, as it is remembered.
pub open spec fn held<V>(env: Map<Seq<char>, V>, name: Seq<char>) -> Option<V> {
    if env.contains_key(name) {
        Some(env[name])
    } else {
        None
    }
}

/// The variable is one of those that were remembered.
pub open spec fn is_saved<V>(saved: Seq<(&'static str, Option<V>)>, name: Seq<char>) -> bool {
    exists|i: int| 0 <= i < saved.len() && (#[trigger] saved[i]).0@ == name
}

/// Whatever became of the variables that were remembered, the steps that give
/// them their values back lead to the original environment.
pub proof fn restoring_gives_the_original_back<'a, V>(
    env: Map<Seq<char>, V>,
    pinned: Map<Seq<char>, V>,
    saved: Seq<(&'static str, Option<V>)>,
    steps: Seq<Restore<'a, V>>,
)
    requires
        forall|i: int|
            0 <= i < saved.len() ==> (#[trigger] saved[i]).1 == held(env, saved[i].0@),
        forall|name: Seq<char>|
            !is_saved(saved, name) ==> #[trigger] held(pinned, name) == held(env, name),
        steps.len() == saved.len(),
        forall|i: int|
            0 <= i < steps.len() ==> #[trigger] steps[i] == restore_of(saved[i].0, &saved[i].1),
    ensures
        applied(pinned, steps) == env,
{
    let after = applied(pinned, steps);
    assert forall|name: Seq<char>| held(after, name) == held(env, name) by {
        lemma_restored(env, pinned, saved, steps, name);
    }
    assert(after =~= env) by {
        assert forall|name: Seq<char>| after.dom().contains(name) == env.dom().contains(name) by {
            assert(held(after, name) == held(env, name));
        }
        assert forall|name: Seq<char>| after.dom().contains(name) implies after[name]
            == env[name] by {
            assert(held(after, name) == held(env, name));
        }
    }
}

proof fn lemma_restored<'a, V>(
    env: Map<Seq<char>, V>,
    pinned: Map<Seq<char>, V>,
    saved: Seq<(&'static str, Option<V>)>,
    steps: Seq<Restore<'a, V>>,
    name: Seq<char>,
)
    requires
        forall|i: int|
            0 <= i < saved.len() ==> (#[trigger] saved[i]).1 == held(env, saved[i].0@),
        steps.len() == saved.len(),
        forall|i: int|
            0 <= i < steps.len() ==> #[trigger] steps[i] == restore_of(saved[i].0, &saved[i].1),
        !is_saved(saved, name) ==> held(pinned, name) == held(env, name),
    ensures
        held(applied(pinned, steps), name) == held(env, name),
    decreases steps.len(),
{
    if steps.len() > 0 {
        let n = steps.len() - 1;
        let front = saved.drop_last();
        assert(steps[n] == restore_of(saved[n].0, &saved[n].1));
        if saved[n].0@ != name {
            assert(is_saved(front, name) == is_saved(saved, name)) by {
                if is_saved(saved, name) {
                    let i = choose|i: int| 0 <= i < saved.len() && (#[trigger] saved[i]).0@ == name;
                    assert(front[i] == saved[i]);
                }
                if is_saved(front, name) {
                    let i = choose|i: int| 0 <= i < front.len() && (#[trigger] front[i]).0@ == name;
                    assert(saved[i] == front[i]);
                }
            }
            lemma_restored(env, pinned, front, steps.drop_last(), name);
        }
    }
}

/// A value that is in the environment wins over a default: only defaults of
/// variables without one are set.
pub proof fn set_variables_win<V>(
    defaults: Seq<(&'static str, &'static str)>,
    originals: Seq<Option<V>>,
    k: int,
)
    requires
        originals.len() == defaults.len(),
        0 <= k < unset_defaults(defaults, originals).len(),
    ensures
        exists|i: int|
            0 <= i < defaults.len() && originals[i] is None && #[trigger] defaults[i]
                == unset_defaults(defaults, originals)[k],
    decreases defaults.len(),
{
    if defaults.len() > 0 {
        let before = unset_defaults(defaults.drop_last(), originals.drop_last());
        if k < before.len() {
            set_variables_win(defaults.drop_last(), originals.drop_last(), k);
            let i = choose|i: int|
                0 <= i < defaults.len() - 1 && originals.drop_last()[i] is None
                    && #[trigger] defaults.drop_last()[i] == before[k];
            assert(defaults[i] == before[k]);
        } else {
            assert(defaults[defaults.len() - 1] == unset_defaults(defaults, originals)[k]);
        }
    }
}

/// Every default of a variable without a value is set.
pub proof fn unset_variables_get_their_default<V>(
    defaults: Seq<(&'static str, &'static str)>,
    originals: Seq<Option<V>>,
    i: int,
)
    requires
        originals.len() == defaults.len(),
        0 <= i < defaults.len(),
        originals[i] is None,
    ensures
        unset_defaults(defaults, originals).contains(defaults[i]),
    decreases defaults.len(),
{
    let before = unset_defaults(defaults.drop_last(), originals.drop_last());
    let after = unset_defaults(defaults, originals);
    if i == defaults.len() - 1 {
        assert(after[before.len() as int] == defaults[i]);
    } else {
        assert(defaults.drop_last()[i] == defaults[i]);
        unset_variables_get_their_default(defaults.drop_last(), originals.drop_last(), i);
        let k = choose|k: int| 0 <= k < before.len() && before[k] == defaults[i];
        assert(after[k] == defaults[i]);
    }
}

impl<V> LaunchEnv<V> {
    /// Remember what the variable of each of `defaults` holds, `originals[i]`
    /// for `defaults[i]`. Handed back with it are the defaults to set: those
    /// whose variable is not set already.
    pub fn pin(defaults: &[(&'static str, &'static str)], originals: Vec<Option<V>>) -> (r: (
        Self,
        Vec<(&'static str, &'static str)>,
    ))
        requires
            originals@.len() == defaults@.len(),
        ensures
            r.0.saved@.len() == defaults@.len(),
            forall|i: int|
                0 <= i < defaults@.len() ==> #[trigger] r.0.saved@[i] == (
                    defaults@[i].0,
                    originals@[i],
                ),
            r.1@ == unset_defaults(defaults@, originals@),
    {
        let mut saved: Vec<(&'static str, Option<V>)> = Vec::new();
        let mut wanted: Vec<(&'static str, &'static str)> = Vec::new();
        let ghost all = originals@;
        let mut i: usize = 0;
        for original in it: originals
            invariant
                it.seq() == all,
                all.len() == defaults@.len(),
                i == it.index(),
                i <= defaults@.len(),
                saved@.len() == i,
                forall|k: int| 0 <= k < i ==> #[trigger] saved@[k] == (defaults@[k].0, all[k]),
                wanted@ == unset_defaults(defaults@.take(i as int), all.take(i as int)),
        {
            proof {
                assert(defaults@.take(i + 1).drop_last() == defaults@.take(i as int));
                assert(all.take(i + 1).drop_last() == all.take(i as int));
                assert(defaults@.take(i + 1).last() == defaults@[i as int]);
                assert(all.take(i + 1).last() == all[i as int]);
            }
            if original.is_none() {
                wanted.push(defaults[i]);
            }
            saved.push((defaults[i].0, original));
            i += 1;
        }
        assert(defaults@.take(i as int) == defaults@);
        assert(all.take(i as int) == all);
        (LaunchEnv { saved }, wanted)
    }

    /// What to do to an environment, in order, to get the original one back.
    pub fn restore(&self) -> (r: Vec<Restore<'_, V>>)
        ensures
            r@.len() == self.saved@.len(),
            forall|i: int|
                0 <= i < r@.len() ==> #[trigger] r@[i] == restore_of(
                    self.saved@[i].0,
                    &self.saved@[i].1,
                ),
    {
        let mut steps: Vec<Restore<'_, V>> = Vec::new();
        let mut i: usize = 0;
        while i < self.saved.len()
            invariant
                i <= self.saved@.len(),
                steps@.len() == i,
                forall|k: int|
                    0 <= k < i ==> #[trigger] steps@[k] == restore_of(
                        self.saved@[k].0,
                        &self.saved@[k].1,
                    ),
            decreases self.saved@.len() - i,
        {
            let name: &'static str = self.saved[i].0;
            match &self.saved[i].1 {
                Some(value) => steps.push(Restore::Put(name, value)),
                None => steps.push(Restore::Remove(name)),
            }
            i += 1;
        }
        steps
    }
}

} // verus!
