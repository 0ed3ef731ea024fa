//! Language of the sentences shown to the user. The Korean source sentence is
//! the key of a translation table; the table maps each key to one text per
//! language code.
use vstd::prelude::*;
use crate::platform::Platform;
use crate::text::{chars_of, contains_seq, first_index, occurs_at, push_all, push_char, push_str, same_chars};

verus! {

broadcast use vstd::string::group_string_axioms;

/// Number of supported languages.
pub const LANGUAGE_COUNT: usize = 7;

/// Position of Korean, the language of the source sentences.
pub const SOURCE_INDEX: usize = 4;

/// Code of the language at position `i` of the language list (the order of
/// the README's language list and of the bundled translation folders).
pub open spec fn language_code(i: int) -> Seq<char> {
    if i == 0 {
        "en"@
    } else if i == 1 {
        "zh-Hans"@
    } else if i == 2 {
        "ja"@
    } else if i == 3 {
        "es"@
    } else if i == 4 {
        "ko"@
    } else if i == 5 {
        "de"@
    } else {
        "fr"@
    }
}

/// Name, in its own language, of the language at position `i`.
pub open spec fn language_name(i: int) -> Seq<char> {
    if i == 0 {
        "English"@
    } else if i == 1 {
        "简体中文"@
    } else if i == 2 {
        "日本語"@
    } else if i == 3 {
        "Español"@
    } else if i == 4 {
        "한국어"@
    } else if i == 5 {
        "Deutsch"@
    } else {
        "Français"@
    }
}

/// Code of the language at position `i`.
pub fn language_code_at(i: usize) -> (r: &'static str)
    requires
        i < LANGUAGE_COUNT,
    ensures
        r@ == language_code(i as int),
{
    if i == 0 {
        "en"
    } else if i == 1 {
        "zh-Hans"
    } else if i == 2 {
        "ja"
    } else if i == 3 {
        "es"
    } else if i == 4 {
        "ko"
    } else if i == 5 {
        "de"
    } else {
        "fr"
    }
}

/// Name of the language at position `i`.
pub fn language_name_at(i: usize) -> (r: &'static str)
    requires
        i < LANGUAGE_COUNT,
    ensures
        r@ == language_name(i as int),
{
    if i == 0 {
        "English"
    } else if i == 1 {
        "简体中文"
    } else if i == 2 {
        "日本語"
    } else if i == 3 {
        "Español"
    } else if i == 4 {
        "한국어"
    } else if i == 5 {
        "Deutsch"
    } else {
        "Français"
    }
}

/// The supported languages as (code, name) pairs, in list order.
pub fn languages() -> (r: Vec<(&'static str, &'static str)>)
    ensures
        r@.len() == LANGUAGE_COUNT,
        forall|i: int|
            0 <= i < LANGUAGE_COUNT ==> (#[trigger] r@[i]).0@ == language_code(i) && r@[i].1@
                == language_name(i),
{
    let mut r: Vec<(&'static str, &'static str)> = Vec::new();
    let mut i: usize = 0;
    while i < LANGUAGE_COUNT
        invariant
            i <= LANGUAGE_COUNT,
            r@.len() == i,
            forall|j: int|
                0 <= j < i ==> (#[trigger] r@[j]).0@ == language_code(j) && r@[j].1@
                    == language_name(j),
        decreases LANGUAGE_COUNT - i,
    {
        r.push((language_code_at(i), language_name_at(i)));
        i = i + 1;
    }
    r
}

/// The translations of one source sentence: (language code, text) pairs.
pub struct Entry {
    pub key: String,
    pub texts: Vec<(String, String)>,
}

/// The (language code, text) pairs of an entry as plain values.
pub open spec fn entry_texts(e: Entry) -> Seq<(Seq<char>, Seq<char>)> {
    e.texts@.map_values(|p: (String, String)| (p.0@, p.1@))
}

/// The string table of a translation file: for each source sentence under
/// the top-level `strings` object, in the order the parser gives them, its
/// (language code, text) pairs, the text none where the value is no string;
/// a sentence whose value is no object has no pairs. None when the file
/// does not parse or has no `strings` object.
pub uninterp spec fn translation_strings(raw: Seq<char>) -> Option<
    Seq<(Seq<char>, Seq<(Seq<char>, Option<Seq<char>>)>)>,
>;

/// The pairs of a parsed string table as plain values.
pub open spec fn strings_view(v: Seq<(String, Vec<(String, Option<String>)>)>) -> Seq<
    (Seq<char>, Seq<(Seq<char>, Option<Seq<char>>)>),
> {
    v.map_values(
        |e: (String, Vec<(String, Option<String>)>)|
            (
                e.0@,
                e.1@.map_values(
                    |p: (String, Option<String>)|
                        (
                            p.0@,
                            match p.1 {
                                Some(t) => Some(t@),
                                None => None,
                            },
                        ),
                ),
            ),
    )
}

/// Parses a translation file with `serde_json::from_str` into a
/// `serde_json::Value` and converts its `strings` object one for one into
/// plain values (`as_object`, `as_str`), in the order of the parser's map.
/// Claimed: the result is the named function of the text.
#[verifier::external_body]
fn parse_translations(raw: &str) -> (r: Option<Vec<(String, Vec<(String, Option<String>)>)>>)
    ensures
        match r {
            Some(v) => translation_strings(raw@) == Some(strings_view(v@)),
            None => translation_strings(raw@) is None,
        },
{
    let value = serde_json::from_str::<serde_json::Value>(raw).ok()?;
    let strings = value["strings"].as_object()?;
    Some(strings.iter().map(|(key, langs)| (key.clone(), match langs.as_object() {
        Some(texts) => texts.iter().map(|(code, text)| (code.clone(), text.as_str().map(str::to_string))).collect(),
        None => Vec::new(),
    })).collect())
}

/// The texts kept of a sentence's pairs: those that are strings and not
/// empty, in order.
pub open spec fn texts_kept(ts: Seq<(Seq<char>, Option<Seq<char>>)>) -> Seq<(Seq<char>, Seq<char>)>
    decreases ts.len(),
{
    if ts.len() == 0 {
        seq![]
    } else {
        let rest = texts_kept(ts.drop_last());
        match ts.last().1 {
            Some(t) => if t.len() > 0 {
                rest.push((ts.last().0, t))
            } else {
                rest
            },
            None => rest,
        }
    }
}

fn copy_text(s: &String) -> (r: String)
    ensures
        r@ == s@,
{
    let mut r = String::new();
    push_str(&mut r, s.as_str());
    r
}

/// The translation table of a translation file: one entry per source
/// sentence of its string table, in order, with the texts that are strings
/// and not empty; no entry when the file does not parse or has no string
/// table.
pub fn translation_table(raw: &str) -> (r: Vec<Entry>)
    ensures
        match translation_strings(raw@) {
            None => r@.len() == 0,
            Some(t) => r@.len() == t.len() && forall|i: int|
                0 <= i < t.len() ==> (#[trigger] r@[i]).key@ == t[i].0 && entry_texts(r@[i])
                    == texts_kept(t[i].1),
        },
{
    let parsed = match parse_translations(raw) {
        Some(v) => v,
        None => {
            return Vec::new();
        },
    };
    let ghost t = strings_view(parsed@);
    let mut table: Vec<Entry> = Vec::new();
    let mut i: usize = 0;
    while i < parsed.len()
        invariant
            i <= parsed@.len(),
            t == strings_view(parsed@),
            table@.len() == i,
            forall|k: int|
                0 <= k < i ==> (#[trigger] table@[k]).key@ == t[k].0 && entry_texts(table@[k])
                    == texts_kept(t[k].1),
        decreases parsed@.len() - i,
    {
        let pairs = &parsed[i].1;
        let ghost ts = t[i as int].1;
        assert(ts == pairs@.map_values(
            |p: (String, Option<String>)|
                (
                    p.0@,
                    match p.1 {
                        Some(x) => Some(x@),
                        None => None,
                    },
                ),
        ));
        let mut texts: Vec<(String, String)> = Vec::new();
        let mut j: usize = 0;
        assert(ts.take(0) =~= Seq::<(Seq<char>, Option<Seq<char>>)>::empty());
        while j < pairs.len()
            invariant
                j <= pairs@.len(),
                ts.len() == pairs@.len(),
                forall|k: int| 0 <= k < pairs@.len() ==> (#[trigger] ts[k]).0 == pairs@[k].0@
                    && ts[k].1 == (match pairs@[k].1 {
                        Some(x) => Some(x@),
                        None => None,
                    }),
                texts@.map_values(|p: (String, String)| (p.0@, p.1@)) == texts_kept(
                    ts.take(j as int),
                ),
            decreases pairs@.len() - j,
        {
            let ghost before = texts@;
            assert(ts.take(j + 1).drop_last() =~= ts.take(j as int));
            assert(ts.take(j + 1).last() == ts[j as int]);
            match &pairs[j].1 {
                Some(text) => {
                    if text.as_str().unicode_len() > 0 {
                        let code = copy_text(&pairs[j].0);
                        let body = copy_text(text);
                        texts.push((code, body));
                        assert(texts@.map_values(|p: (String, String)| (p.0@, p.1@)) =~= before.map_values(
                            |p: (String, String)| (p.0@, p.1@),
                        ).push((ts[j as int].0, ts[j as int].1->Some_0)));
                    }
                },
                None => {},
            }
            j = j + 1;
        }
        assert(ts.take(pairs@.len() as int) =~= ts);
        let key = copy_text(&parsed[i].0);
        table.push(Entry { key, texts });
        i = i + 1;
    }
    table
}

/// The entry of `key`: the last entry of the table with that key, as when
/// the entries are inserted into a map in order.
pub open spec fn entry_for(table: Seq<Entry>, key: Seq<char>) -> Option<Entry>
    decreases table.len(),
{
    if table.len() == 0 {
        None
    } else if table.last().key@ == key {
        Some(table.last())
    } else {
        entry_for(table.drop_last(), key)
    }
}

/// The text for `code` among `texts`: the last non-empty one; empty texts
/// count as missing translations.
pub open spec fn text_for(texts: Seq<(String, String)>, code: Seq<char>) -> Option<Seq<char>>
    decreases texts.len(),
{
    if texts.len() == 0 {
        None
    } else if texts.last().0@ == code && texts.last().1@.len() > 0 {
        Some(texts.last().1@)
    } else {
        text_for(texts.drop_last(), code)
    }
}

/// The user's language choice together with the translation table.
pub struct I18n {
    current: usize,
    table: Vec<Entry>,
}

impl I18n {
    #[verifier::type_invariant]
    spec fn inv(self) -> bool {
        self.current < LANGUAGE_COUNT
    }

    /// Position of the current language in the language list.
    pub closed spec fn lang(self) -> int {
        self.current as int
    }

    /// The translation table.
    pub closed spec fn entries(self) -> Seq<Entry> {
        self.table@
    }

    /// A state with the given table whose language is the source language
    /// (Korean), the language in effect before any choice is made.
    pub fn new(table: Vec<Entry>) -> (r: I18n)
        ensures
            r.lang() == SOURCE_INDEX,
            r.entries() == table@,
    {
        I18n { current: SOURCE_INDEX, table }
    }
}

/// `source` in the current language: the source itself when the current
/// language is Korean or when the table holds no text for it.
pub open spec fn translate(state: I18n, source: Seq<char>) -> Seq<char> {
    if language_code(state.lang()) == language_code(SOURCE_INDEX as int) {
        source
    } else {
        match entry_for(state.entries(), source) {
            Some(e) => match text_for(e.texts@, language_code(state.lang())) {
                Some(text) => text,
                None => source,
            },
            None => source,
        }
    }
}

/// Position of the first `{}` in `s`, or `s.len()` when there is none.
pub open spec fn placeholder(s: Seq<char>) -> nat
    decreases s.len(),
{
    if s.len() < 2 {
        s.len()
    } else if s[0] == '{' && s[1] == '}' {
        0
    } else {
        1 + placeholder(s.drop_first())
    }
}

/// `s` with its `{}` places filled by `args` in order, each place once: the
/// search for the next place goes on in the text after the last place
/// filled, never inside a value; a value with no place left is appended
/// after a space.
pub open spec fn fill(s: Seq<char>, args: Seq<Seq<char>>) -> Seq<char>
    decreases args.len(),
{
    if args.len() == 0 {
        s
    } else {
        let p = placeholder(s);
        if p + 2 <= s.len() {
            s.take(p as int) + args[0] + fill(s.skip(p + 2 as int), args.drop_first())
        } else {
            s + seq![' '] + args[0] + fill(seq![], args.drop_first())
        }
    }
}

/// The locale tag's language mapped to a supported language code: the part
/// before the first `-` (after `_` became `-` and ASCII letters became lower
/// case); English when that part is none of the supported languages.
pub open spec fn detect_code(tag: Option<Seq<char>>) -> Seq<char> {
    let t = match tag {
        Some(t) => t,
        None => Seq::empty(),
    };
    let norm = t.map_values(|c: char| lower_dash(c));
    let primary = norm.take(first_index(norm, '-') as int);
    if primary == "ko"@ {
        "ko"@
    } else if primary == "zh"@ {
        "zh-Hans"@
    } else if primary == "ja"@ {
        "ja"@
    } else if primary == "es"@ {
        "es"@
    } else if primary == "de"@ {
        "de"@
    } else if primary == "fr"@ {
        "fr"@
    } else {
        "en"@
    }
}

/// `_` as `-`, and an ASCII capital letter as its small letter.
pub open spec fn lower_dash(c: char) -> char {
    if c == '_' {
        '-'
    } else if 65 <= (c as u32) <= 90 {
        ((c as u32 + 32) as u8) as char
    } else {
        c
    }
}

/// Font family for the user interface in the given language; the empty
/// string means the toolkit default.
pub open spec fn font_for(platform: Platform, code: Seq<char>) -> Seq<char> {
    match platform {
        Platform::Windows => if code == "zh-Hans"@ {
            "Microsoft YaHei UI"@
        } else if code == "ja"@ {
            "Yu Gothic UI"@
        } else if code == "ko"@ {
            "Malgun Gothic"@
        } else {
            "Segoe UI"@
        },
        Platform::MacOs => if code == "zh-Hans"@ {
            "PingFang SC"@
        } else if code == "ja"@ {
            "Hiragino Sans"@
        } else if code == "ko"@ {
            "Apple SD Gothic Neo"@
        } else {
            ""@
        },
        Platform::Linux => ""@,
    }
}

/// Whether the characters of `v` spell `lit`.
fn spells(v: &[char], lit: &str) -> (r: bool)
    ensures
        r == (v@ == lit@),
{
    let l = chars_of(lit);
    same_chars(v, &l)
}

/// Code of the current language.
pub fn current(state: &I18n) -> (r: &'static str)
    ensures
        r@ == language_code(state.lang()),
{
    proof {
        use_type_invariant(state);
    }
    language_code_at(state.current)
}

/// Position of the current language in the language list (the order of the
/// language selector).
pub fn index(state: &I18n) -> (r: usize)
    ensures
        r == state.lang(),
        r < LANGUAGE_COUNT,
{
    proof {
        use_type_invariant(state);
    }
    state.current
}

/// Makes `code` the current language. An unknown code is ignored and gives
/// `false`; a known one gives `true`.
pub fn set(state: &mut I18n, code: &str) -> (r: bool)
    ensures
        r == exists|i: int| 0 <= i < LANGUAGE_COUNT && language_code(i) == code@,
        r ==> language_code(final(state).lang()) == code@,
        !r ==> final(state).lang() == old(state).lang(),
        final(state).entries() == old(state).entries(),
{
    let c = chars_of(code);
    let mut i: usize = 0;
    while i < LANGUAGE_COUNT
        invariant
            i <= LANGUAGE_COUNT,
            c@ == code@,
            forall|j: int| 0 <= j < i ==> language_code(j) != code@,
            state.lang() == old(state).lang(),
            state.entries() == old(state).entries(),
        decreases LANGUAGE_COUNT - i,
    {
        if spells(&c, language_code_at(i)) {
            state.current = i;
            return true;
        }
        i = i + 1;
    }
    false
}

/// Font family for the user interface in language `code`, chosen so that the
/// font holds every letter of that language.
pub fn font_family(platform: Platform, code: &str) -> (r: &'static str)
    ensures
        r@ == font_for(platform, code@),
{
    let c = chars_of(code);
    match platform {
        Platform::Windows => {
            if spells(&c, "zh-Hans") {
                "Microsoft YaHei UI"
            } else if spells(&c, "ja") {
                "Yu Gothic UI"
            } else if spells(&c, "ko") {
                "Malgun Gothic"
            } else {
                "Segoe UI"
            }
        },
        Platform::MacOs => {
            if spells(&c, "zh-Hans") {
                "PingFang SC"
            } else if spells(&c, "ja") {
                "Hiragino Sans"
            } else if spells(&c, "ko") {
                "Apple SD Gothic Neo"
            } else {
                ""
            }
        },
        Platform::Linux => "",
    }
}

/// Name of the bundled translation to select for language `code`: the
/// empty name for Korean, whose sentences are the bundle's source.
pub fn bundled_language(code: &str) -> (r: &str)
    ensures
        code@ == "ko"@ ==> r@ == ""@,
        code@ != "ko"@ ==> r@ == code@,
{
    let c = chars_of(code);
    if spells(&c, "ko") {
        ""
    } else {
        code
    }
}

/// Picks the supported language of an OS locale tag such as `ko-KR`,
/// `zh_CN` or `en_US`; English when there is none.
pub fn detect(tag: Option<&str>) -> (r: &'static str)
    ensures
        r@ == detect_code(
            match tag {
                Some(t) => Some(t@),
                None => None,
            },
        ),
{
    let t: &str = match tag {
        Some(t) => t,
        None => "",
    };
    let raw = chars_of(t);
    let ghost tv: Seq<char> = match tag {
        Some(t) => t@,
        None => Seq::empty(),
    };
    proof {
        if tag.is_none() {
            reveal_strlit("");
            assert(raw@ =~= Seq::<char>::empty());
        }
    }
    let mut norm: Vec<char> = Vec::new();
    let mut i: usize = 0;
    while i < raw.len()
        invariant
            i <= raw@.len(),
            raw@ == tv,
            norm@ == tv.take(i as int).map_values(|c: char| lower_dash(c)),
        decreases raw@.len() - i,
    {
        let c = raw[i];
        let n = c as u32;
        let d = if c == '_' {
            '-'
        } else if 65 <= n && n <= 90 {
            ((n + 32) as u8) as char
        } else {
            c
        };
        norm.push(d);
        i = i + 1;
        assert(norm@ =~= tv.take(i as int).map_values(|c: char| lower_dash(c)));
    }
    assert(tv.take(raw@.len() as int) =~= tv);
    let end = crate::text::find_char(&norm, 0, '-');
    assert(norm@.skip(0) =~= norm@);
    let mut primary: Vec<char> = Vec::new();
    let mut k: usize = 0;
    while k < end
        invariant
            k <= end <= norm@.len(),
            primary@ == norm@.take(k as int),
        decreases end - k,
    {
        primary.push(norm[k]);
        k = k + 1;
        assert(primary@ =~= norm@.take(k as int));
    }
    if spells(&primary, "ko") {
        "ko"
    } else if spells(&primary, "zh") {
        "zh-Hans"
    } else if spells(&primary, "ja") {
        "ja"
    } else if spells(&primary, "es") {
        "es"
    } else if spells(&primary, "de") {
        "de"
    } else if spells(&primary, "fr") {
        "fr"
    } else {
        "en"
    }
}

/// Index of the entry of `key`, searching from the end.
fn find_entry(table: &Vec<Entry>, key: &[char]) -> (r: Option<usize>)
    ensures
        match r {
            Some(i) => i < table@.len() && entry_for(table@, key@) == Some(table@[i as int]),
            None => entry_for(table@, key@) is None,
        },
{
    let mut n = table.len();
    assert(table@.take(n as int) =~= table@);
    while n > 0
        invariant
            n <= table@.len(),
            entry_for(table@, key@) == entry_for(table@.take(n as int), key@),
        decreases n,
    {
        let e = &table[n - 1];
        let k = chars_of(e.key.as_str());
        assert(table@.take(n as int).drop_last() =~= table@.take(n - 1));
        if same_chars(&k, key) {
            return Some(n - 1);
        }
        n = n - 1;
    }
    None
}

/// Index of the text for `code`, searching from the end.
fn find_text(texts: &Vec<(String, String)>, code: &[char]) -> (r: Option<usize>)
    ensures
        match r {
            Some(i) => i < texts@.len() && text_for(texts@, code@) == Some(texts@[i as int].1@),
            None => text_for(texts@, code@) is None,
        },
{
    let mut n = texts.len();
    assert(texts@.take(n as int) =~= texts@);
    while n > 0
        invariant
            n <= texts@.len(),
            text_for(texts@, code@) == text_for(texts@.take(n as int), code@),
        decreases n,
    {
        let pair = &texts[n - 1];
        let c = chars_of(pair.0.as_str());
        let t = chars_of(pair.1.as_str());
        assert(texts@.take(n as int).drop_last() =~= texts@.take(n - 1));
        if same_chars(&c, code) && t.len() > 0 {
            return Some(n - 1);
        }
        n = n - 1;
    }
    None
}

/// The source sentence in the current language; the source itself when
/// there is no translation.
pub fn t(state: &I18n, source: &str) -> (r: String)
    ensures
        r@ == translate(*state, source@),
{
    let code = current(state);
    let mut out = String::new();
    if spells(&chars_of(code), language_code_at(SOURCE_INDEX)) {
        push_str(&mut out, source);
        return out;
    }
    let key = chars_of(source);
    assert(state.table@.take(state.table@.len() as int) =~= state.table@);
    match find_entry(&state.table, &key) {
        Some(i) => {
            let code_chars = chars_of(code);
            match find_text(&state.table[i].texts, &code_chars) {
                Some(j) => {
                    push_str(&mut out, state.table[i].texts[j].1.as_str());
                },
                None => {
                    push_str(&mut out, source);
                },
            }
        },
        None => {
            push_str(&mut out, source);
        },
    }
    out
}

/// Position of the first `{}` in `v` from `from` on, or `v.len()`.
fn find_placeholder_from(v: &[char], from: usize) -> (r: usize)
    requires
        from <= v@.len(),
    ensures
        r == from + placeholder(v@.skip(from as int)),
        r <= v@.len(),
{
    let mut i: usize = from;
    while v.len() - i >= 2 && !(v[i] == '{' && v[i + 1] == '}')
        invariant
            from <= i <= v@.len(),
            placeholder(v@.skip(from as int)) == (i - from) + placeholder(v@.skip(i as int)),
        decreases v@.len() - i,
    {
        assert(v@.skip(i as int).drop_first() =~= v@.skip(i + 1));
        i = i + 1;
    }
    if v.len() - i >= 2 {
        i
    } else {
        v.len()
    }
}

/// Appends `v[from..to]` to `out`.
fn push_range(out: &mut Vec<char>, v: &[char], from: usize, to: usize)
    requires
        from <= to <= v@.len(),
    ensures
        final(out)@ == old(out)@ + v@.subrange(from as int, to as int),
{
    let mut k = from;
    while k < to
        invariant
            from <= k <= to <= v@.len(),
            out@ == old(out)@ + v@.subrange(from as int, k as int),
        decreases to - k,
    {
        out.push(v[k]);
        k = k + 1;
        assert(out@ =~= old(out)@ + v@.subrange(from as int, k as int));
    }
}

/// `x` occurring in `y` occurs in `p + y + q`.
proof fn lemma_contains_within(p: Seq<char>, y: Seq<char>, q: Seq<char>, x: Seq<char>)
    requires
        contains_seq(y, x),
    ensures
        contains_seq(p + y + q, x),
{
    let i = choose|i: int| occurs_at(y, x, i);
    let k = p.len() + i;
    assert((p + y + q).subrange(k, k + x.len()) =~= y.subrange(i, i + x.len()));
    assert(occurs_at(p + y + q, x, k));
}

/// Values are never lost: every value filled into a text appears in the
/// result whole, whether the text kept a place for it or not.
pub proof fn lemma_values_kept(s: Seq<char>, args: Seq<Seq<char>>)
    ensures
        forall|j: int| 0 <= j < args.len() ==> contains_seq(fill(s, args), #[trigger] args[j]),
    decreases args.len(),
{
    if args.len() > 0 {
        let p = placeholder(s);
        let rest = args.drop_first();
        let (head, tail) = if p + 2 <= s.len() {
            (s.take(p as int), s.skip(p + 2 as int))
        } else {
            (s + seq![' '], Seq::<char>::empty())
        };
        let y = fill(tail, rest);
        lemma_values_kept(tail, rest);
        assert(fill(s, args) == head + args[0] + y);
        assert forall|j: int| 0 <= j < args.len() implies contains_seq(
            fill(s, args),
            #[trigger] args[j],
        ) by {
            if j == 0 {
                let k = head.len() as int;
                assert((head + args[0] + y).subrange(k, k + args[0].len()) =~= args[0]);
                assert(occurs_at(head + args[0] + y, args[0], k));
            } else {
                assert(args[j] == rest[j - 1]);
                lemma_contains_within(head + args[0], y, Seq::<char>::empty(), args[j]);
                assert(head + args[0] + y + Seq::<char>::empty() =~= head + args[0] + y);
            }
        }
    }
}

/// Fills the `{}` places of the translated `source` with `args` in order,
/// each place once and never a place inside a value; a value with no place
/// left is kept, appended after a space.
pub fn tf(state: &I18n, source: &str, args: &[&str]) -> (r: String)
    ensures
        r@ == fill(translate(*state, source@), args@.map_values(|a: &str| a@)),
{
    let base = t(state, source);
    let v = chars_of(base.as_str());
    let ghost all = args@.map_values(|a: &str| a@);
    let mut out: Vec<char> = Vec::new();
    let mut pos: usize = 0;
    let mut i: usize = 0;
    assert(all.skip(0) =~= all);
    assert(v@.skip(0) =~= v@);
    assert(out@ + v@ =~= v@);
    while i < args.len()
        invariant
            i <= args@.len(),
            pos <= v@.len(),
            all == args@.map_values(|a: &str| a@),
            fill(translate(*state, source@), all) == out@ + fill(v@.skip(pos as int), all.skip(i as int)),
        decreases args@.len() - i,
    {
        let a = chars_of(args[i]);
        let ghost rest = v@.skip(pos as int);
        let ghost before = out@;
        let p = find_placeholder_from(&v, pos);
        assert(all.skip(i as int)[0] == all[i as int]);
        assert(all.skip(i as int).drop_first() =~= all.skip(i + 1));
        let ghost q = p - pos;
        if p < v.len() && v.len() - p >= 2 {
            push_range(&mut out, &v, pos, p);
            push_range(&mut out, &a, 0, a.len());
            assert(rest.take(p - pos) =~= v@.subrange(pos as int, p as int));
            assert(a@.subrange(0, a@.len() as int) =~= a@);
            assert(rest.skip(p - pos + 2) =~= v@.skip(p + 2));
            pos = p + 2;
            assert(out@ =~= before + rest.take(q) + all[i as int]);
        } else {
            push_range(&mut out, &v, pos, v.len());
            out.push(' ');
            push_range(&mut out, &a, 0, a.len());
            assert(v@.subrange(pos as int, v@.len() as int) =~= rest);
            assert(a@.subrange(0, a@.len() as int) =~= a@);
            pos = v.len();
            assert(v@.skip(pos as int) =~= Seq::<char>::empty());
            assert(out@ =~= before + rest + seq![' '] + all[i as int]);
        }
        i = i + 1;
    }
    assert(all.skip(args@.len() as int) =~= Seq::<Seq<char>>::empty());
    push_range(&mut out, &v, pos, v.len());
    assert(v@.subrange(pos as int, v@.len() as int) =~= v@.skip(pos as int));
    let mut r = String::new();
    push_all(&mut r, &out);
    r
}

/// A sentence the library reports; the user sees it in the current language.
#[derive(Clone, Debug, PartialEq, Eq)]
pub enum Notice {
    /// The address typed is not an IP address with a port.
    AddressFormat,
    /// The address has port 0 or an unspecified or multicast IP.
    AddressRange,
    /// The pairing code is not six digits.
    PairingCode,
    /// Sending a request to the ADB server failed.
    ServerRequestFailed,
    /// The ADB server did not answer.
    ServerSilent,
    /// The ADB server refused the request.
    ServerUnsupported,
    /// The existing ADB server could not be checked.
    ServerUnreachable,
    /// The ADB server's reply was malformed.
    ServerReply,
    /// The ADB server's version was malformed.
    ServerVersion,
    /// The chosen file could not be found.
    AdbMissing,
    /// The chosen file is not named as the ADB executable is; holds that name.
    SelectFile(String),
    /// The file does not report itself as Android Debug Bridge.
    NotAdb,
    /// A server of another ADB version is running.
    VersionMismatch,
    /// Pairing was not confirmed.
    NotPaired,
    /// Connecting was not confirmed.
    NotConnected,
    /// The device to disconnect is not a listed wireless device.
    NotListedWireless,
    /// The device-list subscription could not be opened.
    TrackFailed,
    /// The server closed the device-list subscription.
    ServerClosed,
    /// The device-list replies grew too large.
    TrackOverflow,
    /// A device-list reply was malformed.
    TrackReply,
    /// No ADB has been prepared yet.
    NoAdb,
    /// The download archive failed its integrity check.
    DownloadIntegrity,
    /// Terms of the SDK must be accepted first.
    TermsRequired,
    /// Automatic preparation is offered on Windows and macOS only.
    PlatformUnsupported,
    /// No user data folder could be found.
    NoDataDir,
    /// The downloaded archive could not be opened.
    ArchiveUnreadable,
    /// A required file is missing from the archive.
    MemberMissing,
    /// A file in the archive is larger than allowed.
    MemberTooLarge,
    /// A file in the archive could not be read out.
    MemberUnreadable,
    /// The download manifest could not be read.
    DownloadInfo,
    /// The download manifest gives no address for this platform.
    DownloadUrl,
    /// The download manifest gives no checksum for this platform.
    DownloadHash,
}

/// The Korean source sentence of a notice.
pub open spec fn notice_source(n: Notice) -> Seq<char> {
    match n {
        Notice::AddressFormat => "휴대폰에 표시된 IP 주소:포트를 입력해 주세요. 예: 192.168.1.5:37123"@,
        Notice::AddressRange => "휴대폰의 IP 주소와 1~65535 사이 포트를 확인해 주세요."@,
        Notice::PairingCode => "휴대폰에 표시된 숫자 6자리를 입력해 주세요."@,
        Notice::ServerRequestFailed => "ADB 서버 요청 실패"@,
        Notice::ServerSilent => "ADB 서버가 응답하지 않습니다."@,
        Notice::ServerUnsupported => "ADB 서버가 이 요청을 지원하지 않습니다."@,
        Notice::ServerUnreachable => "기존 ADB 서버를 확인하지 못했습니다. 사용 중인 개발 도구의 연결 상태를 확인해 주세요."@,
        Notice::ServerReply => "ADB 서버 응답 오류"@,
        Notice::ServerVersion => "ADB 서버 버전 오류"@,
        Notice::AdbMissing => "ADB 파일을 찾지 못했습니다."@,
        Notice::SelectFile(_) => "{} 파일을 선택해 주세요."@,
        Notice::NotAdb => "정상적인 Android ADB 파일이 아닙니다."@,
        Notice::VersionMismatch => "다른 버전의 ADB 서버가 사용 중입니다. 개발 도구와 같은 ADB 파일을 선택해 주세요. 기존 연결은 유지했습니다."@,
        Notice::NotPaired => "페어링되지 않았습니다. 새 6자리 코드와 페어링 주소로 다시 시도해 주세요."@,
        Notice::NotConnected => "연결되지 않았습니다. 무선 디버깅 첫 화면의 IP 주소와 포트를 확인해 주세요. 페어링 포트와 다릅니다."@,
        Notice::NotListedWireless => "선택한 무선 기기가 현재 연결되어 있지 않습니다."@,
        Notice::TrackFailed => "ADB 상태 알림 연결 실패"@,
        Notice::ServerClosed => "ADB 서버 연결이 끊어졌습니다."@,
        Notice::TrackOverflow => "ADB 상태 응답 크기 초과"@,
        Notice::TrackReply => "ADB 상태 응답 오류"@,
        Notice::NoAdb => "먼저 ADB를 준비해 주세요."@,
        Notice::DownloadIntegrity => "다운로드 파일의 무결성을 확인하지 못했습니다. 실행하지 않았습니다."@,
        Notice::TermsRequired => "Google SDK 약관 동의가 필요합니다."@,
        Notice::PlatformUnsupported => "자동 준비는 Windows와 macOS에서 지원합니다."@,
        Notice::NoDataDir => "사용자 데이터 폴더를 찾지 못했습니다."@,
        Notice::ArchiveUnreadable => "압축 파일을 열지 못했습니다."@,
        Notice::MemberMissing => "필수 ADB 파일이 없습니다."@,
        Notice::MemberTooLarge => "압축 해제 크기 상한을 초과했습니다."@,
        Notice::MemberUnreadable => "도구 파일 저장 실패"@,
        Notice::DownloadInfo => "다운로드 정보 오류"@,
        Notice::DownloadUrl => "다운로드 주소 오류"@,
        Notice::DownloadHash => "다운로드 검증 정보 오류"@,
    }
}

/// The Korean source sentence of a notice.
pub fn notice_source_text(n: &Notice) -> (r: &'static str)
    ensures
        r@ == notice_source(*n),
{
    match n {
        Notice::AddressFormat => "휴대폰에 표시된 IP 주소:포트를 입력해 주세요. 예: 192.168.1.5:37123",
        Notice::AddressRange => "휴대폰의 IP 주소와 1~65535 사이 포트를 확인해 주세요.",
        Notice::PairingCode => "휴대폰에 표시된 숫자 6자리를 입력해 주세요.",
        Notice::ServerRequestFailed => "ADB 서버 요청 실패",
        Notice::ServerSilent => "ADB 서버가 응답하지 않습니다.",
        Notice::ServerUnsupported => "ADB 서버가 이 요청을 지원하지 않습니다.",
        Notice::ServerUnreachable => "기존 ADB 서버를 확인하지 못했습니다. 사용 중인 개발 도구의 연결 상태를 확인해 주세요.",
        Notice::ServerReply => "ADB 서버 응답 오류",
        Notice::ServerVersion => "ADB 서버 버전 오류",
        Notice::AdbMissing => "ADB 파일을 찾지 못했습니다.",
        Notice::SelectFile(_) => "{} 파일을 선택해 주세요.",
        Notice::NotAdb => "정상적인 Android ADB 파일이 아닙니다.",
        Notice::VersionMismatch => "다른 버전의 ADB 서버가 사용 중입니다. 개발 도구와 같은 ADB 파일을 선택해 주세요. 기존 연결은 유지했습니다.",
        Notice::NotPaired => "페어링되지 않았습니다. 새 6자리 코드와 페어링 주소로 다시 시도해 주세요.",
        Notice::NotConnected => "연결되지 않았습니다. 무선 디버깅 첫 화면의 IP 주소와 포트를 확인해 주세요. 페어링 포트와 다릅니다.",
        Notice::NotListedWireless => "선택한 무선 기기가 현재 연결되어 있지 않습니다.",
        Notice::TrackFailed => "ADB 상태 알림 연결 실패",
        Notice::ServerClosed => "ADB 서버 연결이 끊어졌습니다.",
        Notice::TrackOverflow => "ADB 상태 응답 크기 초과",
        Notice::TrackReply => "ADB 상태 응답 오류",
        Notice::NoAdb => "먼저 ADB를 준비해 주세요.",
        Notice::DownloadIntegrity => "다운로드 파일의 무결성을 확인하지 못했습니다. 실행하지 않았습니다.",
        Notice::TermsRequired => "Google SDK 약관 동의가 필요합니다.",
        Notice::PlatformUnsupported => "자동 준비는 Windows와 macOS에서 지원합니다.",
        Notice::NoDataDir => "사용자 데이터 폴더를 찾지 못했습니다.",
        Notice::ArchiveUnreadable => "압축 파일을 열지 못했습니다.",
        Notice::MemberMissing => "필수 ADB 파일이 없습니다.",
        Notice::MemberTooLarge => "압축 해제 크기 상한을 초과했습니다.",
        Notice::MemberUnreadable => "도구 파일 저장 실패",
        Notice::DownloadInfo => "다운로드 정보 오류",
        Notice::DownloadUrl => "다운로드 주소 오류",
        Notice::DownloadHash => "다운로드 검증 정보 오류",
    }
}

/// The text the user sees for a notice: its source sentence translated, and
/// for a file-name notice the name filled in.
pub open spec fn notice_text(state: I18n, n: Notice) -> Seq<char> {
    match n {
        Notice::SelectFile(name) => fill(translate(state, notice_source(n)), seq![name@]),
        _ => translate(state, notice_source(n)),
    }
}

/// The text the user sees for a notice in the current language.
pub fn message(state: &I18n, n: &Notice) -> (r: String)
    ensures
        r@ == notice_text(*state, *n),
{
    let source = notice_source_text(n);
    match n {
        Notice::SelectFile(name) => {
            let args: Vec<&str> = vec![name.as_str()];
            assert(args@.map_values(|a: &str| a@) =~= seq![name@]);
            tf(state, source, args.as_slice())
        },
        _ => t(state, source),
    }
}

} // verus!
