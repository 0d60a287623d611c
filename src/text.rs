//! The text classifier: tells real, translatable text apart from system and
//! technical strings (numbers, paths, file names, identifiers, markup).

use vstd::prelude::*;

verus! {

/// Matches a URL scheme at the start of the text.
pub const URL_PATTERN: &'static str = r"(?i)^(https?|ftp|file)://";

/// Matches a known asset or data file extension at the end of the text.
pub const FILE_EXT_PATTERN: &'static str = r"(?i)\.(png|jpg|jpeg|gif|bmp|wav|ogg|m4a|mp3|json|js)$";

/// Matches an inline control code such as `\c[1]`.
pub const CONTROL_CODE_PATTERN: &'static str = r"(?i)^\\[a-z]\[\d+\]$";

/// Matches an auto-generated event name such as `EV001`.
pub const EVENT_NAME_PATTERN: &'static str = r"(?i)^EV\d{3,}$";

/// Matches a plugin command: a capitalised word, a space and a command verb.
pub const PLUGIN_COMMAND_PATTERN: &'static str =
    r"(?i)^[A-Z][a-zA-Z]+ (open|close|add|remove|set|get|show|hide|enable|disable)";

/// Matches text made only of characters outside the permitted scripts.
pub const SYMBOLS_ONLY_PATTERN: &'static str =
    r"^[^a-zA-Z0-9\p{Thai}\p{Han}\p{Hiragana}\p{Katakana}\p{Hangul}\p{Cyrillic}\p{Arabic}]+$";

/// What the `regex` crate answers for `pattern` on `text`: `None` when the
/// pattern does not compile, else whether it matches somewhere in the text.
pub uninterp spec fn regex_match(pattern: Seq<char>, text: Seq<char>) -> Option<bool>;

/// The Unicode lower-case mapping of a string, as `str::to_lowercase` gives it.
pub uninterp spec fn lower_of(s: Seq<char>) -> Seq<char>;

/// Relies on `regex::Regex::new` to compile `pattern` and on
/// `regex::Regex::is_match` to test it on `text`; both depend on their
/// arguments alone.
#[verifier::external_body]
fn regex_is_match(pattern: &str, text: &str) -> (r: Option<bool>)
    ensures
        r == regex_match(pattern@, text@),
{
    regex::Regex::new(pattern).ok().map(|re| re.is_match(text))
}

/// Relies on `str::to_lowercase`: the result depends on the characters alone.
#[verifier::external_body]
pub(crate) fn lowercase(s: &str) -> (r: String)
    ensures
        r@ == lower_of(s@),
{
    s.to_lowercase()
}

/// The characters of the string, in order.
pub(crate) fn chars_of(s: &str) -> (r: Vec<char>)
    ensures
        r@ == s@,
{
    let n = s.unicode_len();
    let mut r: Vec<char> = Vec::new();
    let mut i: usize = 0;
    while i < n
        invariant
            n == s@.len(),
            0 <= i <= n,
            r@ =~= s@.subrange(0, i as int),
        decreases n - i,
    {
        r.push(s.get_char(i));
        i = i + 1;
    }
    r
}

/// Whether a pattern matched, counting a pattern that does not compile as no match.
pub open spec fn matches(pattern: Seq<char>, text: Seq<char>) -> bool {
    regex_match(pattern, text) == Some(true)
}

fn regex_hit(pattern: &str, text: &str) -> (r: bool)
    ensures
        r == matches(pattern@, text@),
{
    match regex_is_match(pattern, text) {
        Some(b) => b,
        None => false,
    }
}

/// The characters that `char::is_whitespace` accepts (Unicode White_Space).
pub open spec fn is_space(c: char) -> bool {
    ('\u{9}' <= c && c <= '\u{d}') || c == ' ' || c == '\u{85}' || c == '\u{a0}'
        || c == '\u{1680}' || ('\u{2000}' <= c && c <= '\u{200a}') || c == '\u{2028}'
        || c == '\u{2029}' || c == '\u{202f}' || c == '\u{205f}' || c == '\u{3000}'
}

/// The text without leading white space.
pub open spec fn trim_start(s: Seq<char>) -> Seq<char>
    decreases s.len(),
{
    if s.len() > 0 && is_space(s[0]) {
        trim_start(s.drop_first())
    } else {
        s
    }
}

/// The text without trailing white space.
pub open spec fn trim_end(s: Seq<char>) -> Seq<char>
    decreases s.len(),
{
    if s.len() > 0 && is_space(s.last()) {
        trim_end(s.drop_last())
    } else {
        s
    }
}

/// The text without white space at either end, as `str::trim` gives it.
pub open spec fn trim(s: Seq<char>) -> Seq<char> {
    trim_end(trim_start(s))
}

} // verus!

verus! {

fn space_char(c: char) -> (r: bool)
    ensures
        r == is_space(c),
{
    ('\u{9}' <= c && c <= '\u{d}') || c == ' ' || c == '\u{85}' || c == '\u{a0}'
        || c == '\u{1680}' || ('\u{2000}' <= c && c <= '\u{200a}') || c == '\u{2028}'
        || c == '\u{2029}' || c == '\u{202f}' || c == '\u{205f}' || c == '\u{3000}'
}

proof fn lemma_trim_start_from(s: Seq<char>, i: int)
    requires
        0 <= i <= s.len(),
        forall|j: int| 0 <= j < i ==> is_space(s[j]),
    ensures
        trim_start(s) == trim_start(s.subrange(i, s.len() as int)),
    decreases i,
{
    if i > 0 {
        assert(s.drop_first().subrange(i - 1, s.drop_first().len() as int) =~= s.subrange(
            i,
            s.len() as int,
        ));
        lemma_trim_start_from(s.drop_first(), i - 1);
    } else {
        assert(s.subrange(0, s.len() as int) =~= s);
    }
}

proof fn lemma_trim_end_to(s: Seq<char>, k: int)
    requires
        0 <= k <= s.len(),
        forall|j: int| k <= j < s.len() ==> is_space(s[j]),
    ensures
        trim_end(s) == trim_end(s.subrange(0, k)),
    decreases s.len() - k,
{
    if k < s.len() {
        assert(s.drop_last().subrange(0, k) =~= s.subrange(0, k));
        lemma_trim_end_to(s.drop_last(), k);
    } else {
        assert(s.subrange(0, k) =~= s);
    }
}

/// The slice of `s` without white space at either end.
pub(crate) fn trim_str(s: &str) -> (r: &str)
    ensures
        r@ == trim(s@),
{
    let c = chars_of(s);
    let n = c.len();
    let mut i: usize = 0;
    while i < n && space_char(c[i])
        invariant
            0 <= i <= n == c@.len(),
            forall|j: int| 0 <= j < i ==> is_space(c@[j]),
        decreases n - i,
    {
        i = i + 1;
    }
    proof {
        lemma_trim_start_from(c@, i as int);
    }
    let ghost rest = c@.subrange(i as int, n as int);
    assert(rest.len() == 0 || !is_space(rest[0]));
    assert(trim_start(rest) == rest);
    let mut k: usize = n;
    while k > i && space_char(c[k - 1])
        invariant
            i <= k <= n == c@.len(),
            forall|j: int| k <= j < n ==> is_space(c@[j]),
        decreases k,
    {
        k = k - 1;
    }
    proof {
        lemma_trim_end_to(rest, k - i);
        assert(rest.subrange(0, k - i) =~= c@.subrange(i as int, k as int));
        let t = c@.subrange(i as int, k as int);
        assert(t.len() == 0 || !is_space(t.last()));
    }
    s.substring_char(i, k)
}

pub open spec fn is_digit(c: char) -> bool {
    '0' <= c && c <= '9'
}

/// The text without one leading `+` or `-`.
pub open spec fn strip_sign(s: Seq<char>) -> Seq<char> {
    if s.len() > 0 && (s[0] == '+' || s[0] == '-') {
        s.drop_first()
    } else {
        s
    }
}

/// `s` equals the lower-case ASCII word `w` up to ASCII case.
pub open spec fn equals_ignoring_case(s: Seq<char>, w: Seq<char>) -> bool {
    s.len() == w.len() && forall|i: int|
        0 <= i < s.len() ==> (s[i] == w[i] || ('A' <= s[i] && s[i] <= 'Z' && s[i] as u32 + 32
            == w[i] as u32))
}

/// Digits with at most one decimal point, and at least one digit.
pub open spec fn is_mantissa(m: Seq<char>) -> bool {
    &&& forall|i: int| 0 <= i < m.len() ==> is_digit(m[i]) || m[i] == '.'
    &&& forall|i: int, j: int| 0 <= i < j < m.len() ==> !(m[i] == '.' && m[j] == '.')
    &&& exists|i: int| 0 <= i < m.len() && is_digit(m[i])
}

/// An optional sign followed by one or more digits.
pub open spec fn is_exponent(x: Seq<char>) -> bool {
    let y = strip_sign(x);
    y.len() > 0 && forall|i: int| 0 <= i < y.len() ==> is_digit(y[i])
}

pub open spec fn is_exp_mark(c: char) -> bool {
    c == 'e' || c == 'E'
}

/// A decimal number with an optional exponent, as `f64`'s parser reads it.
pub open spec fn is_decimal(b: Seq<char>) -> bool {
    ||| ((forall|i: int| 0 <= i < b.len() ==> !is_exp_mark(b[i])) && is_mantissa(b))
    ||| exists|k: int|
        0 <= k < b.len() && is_exp_mark(b[k]) && is_mantissa(b.subrange(0, k))
            && is_exponent(b.subrange(k + 1, b.len() as int))
}

/// The whole text parses as an `f64`: an optional sign, then `inf`,
/// `infinity` or `nan` in any case, or a decimal number.
pub open spec fn is_float_text(s: Seq<char>) -> bool {
    let b = strip_sign(s);
    equals_ignoring_case(b, "inf"@) || equals_ignoring_case(b, "infinity"@)
        || equals_ignoring_case(b, "nan"@) || is_decimal(b)
}

pub open spec fn starts_with(s: Seq<char>, p: Seq<char>) -> bool {
    p.len() <= s.len() && s.subrange(0, p.len() as int) == p
}

pub open spec fn contains_seq(s: Seq<char>, p: Seq<char>) -> bool {
    exists|i: int| 0 <= i && i + p.len() <= s.len() && #[trigger] s.subrange(i, i + p.len()) == p
}

/// Lower-cased text that begins with an asset directory or a database object name.
pub open spec fn has_system_prefix(low: Seq<char>) -> bool {
    starts_with(low, "img/"@) || starts_with(low, "audio/"@) || starts_with(low, "data/"@)
        || starts_with(low, "js/"@) || starts_with(low, "fonts/"@) || starts_with(low, "actor"@)
        || starts_with(low, "class"@) || starts_with(low, "skill"@) || starts_with(low, "item"@)
        || starts_with(low, "weapon"@) || starts_with(low, "armor"@) || starts_with(low, "enemy"@)
        || starts_with(low, "troop"@) || starts_with(low, "state"@) || starts_with(
        low,
        "animation"@,
    ) || starts_with(low, "tileset"@) || starts_with(low, "commonevent"@) || starts_with(
        low,
        "system"@,
    ) || starts_with(low, "mapinfo"@)
}

/// The pattern tests and the lower-cased form of a text, which the
/// classifier takes from the `regex` crate and from `str::to_lowercase`.
pub struct TextFeatures {
    pub lowered: String,
    pub url: bool,
    pub file_ext: bool,
    pub control_code: bool,
    pub event_name: bool,
    pub plugin_command: bool,
    pub symbols_only: bool,
}

/// The classifier's rule, given the features of text `t`.
pub open spec fn system_rule(t: Seq<char>, f: TextFeatures) -> bool {
    let tr = trim(t);
    ||| tr.len() == 0
    ||| is_float_text(tr)
    ||| t.contains('/')
    ||| f.url
    ||| f.file_ext
    ||| has_system_prefix(f.lowered@)
    ||| f.control_code
    ||| f.event_name
    ||| f.plugin_command
    ||| contains_seq(f.lowered@, "$game"@)
    ||| f.symbols_only
}

/// `f` holds the true features of text `t`.
pub open spec fn features_of(t: Seq<char>, f: TextFeatures) -> bool {
    &&& f.lowered@ == lower_of(t)
    &&& f.url == matches(URL_PATTERN@, t)
    &&& f.file_ext == matches(FILE_EXT_PATTERN@, t)
    &&& f.control_code == matches(CONTROL_CODE_PATTERN@, trim(t))
    &&& f.event_name == matches(EVENT_NAME_PATTERN@, t)
    &&& f.plugin_command == matches(PLUGIN_COMMAND_PATTERN@, t)
    &&& f.symbols_only == matches(SYMBOLS_ONLY_PATTERN@, t)
}

/// Whether `t` is system or technical text, to be left out of extraction.
pub open spec fn is_system_text(t: Seq<char>) -> bool {
    let tr = trim(t);
    let low = lower_of(t);
    ||| tr.len() == 0
    ||| is_float_text(tr)
    ||| t.contains('/')
    ||| matches(URL_PATTERN@, t)
    ||| matches(FILE_EXT_PATTERN@, t)
    ||| has_system_prefix(low)
    ||| matches(CONTROL_CODE_PATTERN@, tr)
    ||| matches(EVENT_NAME_PATTERN@, t)
    ||| matches(PLUGIN_COMMAND_PATTERN@, t)
    ||| contains_seq(low, "$game"@)
    ||| matches(SYMBOLS_ONLY_PATTERN@, t)
}

/// The classifier is a function of the text alone: equal texts get equal
/// answers, and the answer is the rule applied to the text's true features.
pub proof fn lemma_classifier_is_pure(s: Seq<char>, t: Seq<char>, f: TextFeatures)
    requires
        features_of(t, f),
    ensures
        s == t ==> is_system_text(s) == is_system_text(t),
        system_rule(t, f) == is_system_text(t),
{
}

fn digit_char(c: char) -> (r: bool)
    ensures
        r == is_digit(c),
{
    '0' <= c && c <= '9'
}

fn has_prefix(s: &Vec<char>, p: &str) -> (r: bool)
    ensures
        r == starts_with(s@, p@),
{
    let n = p.unicode_len();
    if n > s.len() {
        return false;
    }
    let mut i: usize = 0;
    while i < n
        invariant
            n == p@.len() <= s@.len(),
            0 <= i <= n,
            forall|j: int| 0 <= j < i ==> s@[j] == p@[j],
        decreases n - i,
    {
        if s[i] != p.get_char(i) {
            assert(s@.subrange(0, n as int)[i as int] != p@[i as int]);
            return false;
        }
        i = i + 1;
    }
    assert(s@.subrange(0, n as int) =~= p@);
    true
}

fn matches_at(s: &Vec<char>, start: usize, p: &str) -> (r: bool)
    requires
        start + p@.len() <= s@.len(),
    ensures
        r == (s@.subrange(start as int, start + p@.len()) == p@),
{
    let n = p.unicode_len();
    let len = s.len();
    let mut i: usize = 0;
    while i < n
        invariant
            n == p@.len(),
            len == s@.len(),
            start + n <= s@.len(),
            0 <= i <= n,
            forall|j: int| 0 <= j < i ==> s@[start + j] == p@[j],
        decreases n - i,
    {
        if s[start + i] != p.get_char(i) {
            assert(s@.subrange(start as int, start + n)[i as int] != p@[i as int]);
            return false;
        }
        i = i + 1;
    }
    assert(s@.subrange(start as int, start + n) =~= p@);
    true
}

fn has_infix(s: &Vec<char>, p: &str) -> (r: bool)
    ensures
        r == contains_seq(s@, p@),
{
    let n = p.unicode_len();
    if n > s.len() {
        return false;
    }
    if n == 0 {
        assert(s@.subrange(0, 0 + p@.len() as int) =~= p@);
        return true;
    }
    let last = s.len() - n;
    let mut start: usize = 0;
    while start <= last
        invariant
            0 < n == p@.len() <= s@.len() <= usize::MAX,
            last == s@.len() - n,
            forall|k: int| 0 <= k < start ==> #[trigger] s@.subrange(k, k + n) != p@,
        decreases last + 1 - start,
    {
        if matches_at(s, start, p) {
            return true;
        }
        start = start + 1;
    }
    assert forall|k: int| 0 <= k && k + n <= s@.len() implies #[trigger] s@.subrange(k, k + n)
        != p@ by {
        assert(k < start);
    }
    false
}

fn contains_char(s: &Vec<char>, c: char) -> (r: bool)
    ensures
        r == s@.contains(c),
{
    let mut i: usize = 0;
    while i < s.len()
        invariant
            0 <= i <= s@.len(),
            forall|j: int| 0 <= j < i ==> s@[j] != c,
        decreases s.len() - i,
    {
        if s[i] == c {
            return true;
        }
        i = i + 1;
    }
    false
}

fn system_prefix(low: &Vec<char>) -> (r: bool)
    ensures
        r == has_system_prefix(low@),
{
    has_prefix(low, "img/") || has_prefix(low, "audio/") || has_prefix(low, "data/")
        || has_prefix(low, "js/") || has_prefix(low, "fonts/") || has_prefix(low, "actor")
        || has_prefix(low, "class") || has_prefix(low, "skill") || has_prefix(low, "item")
        || has_prefix(low, "weapon") || has_prefix(low, "armor") || has_prefix(low, "enemy")
        || has_prefix(low, "troop") || has_prefix(low, "state") || has_prefix(low, "animation")
        || has_prefix(low, "tileset") || has_prefix(low, "commonevent") || has_prefix(
        low,
        "system",
    ) || has_prefix(low, "mapinfo")
}

/// The characters of `s` from `lo` up to `hi`.
pub(crate) fn slice_chars(s: &Vec<char>, lo: usize, hi: usize) -> (r: Vec<char>)
    requires
        lo <= hi <= s@.len(),
    ensures
        r@ == s@.subrange(lo as int, hi as int),
{
    let mut r: Vec<char> = Vec::new();
    let mut j: usize = lo;
    while j < hi
        invariant
            lo <= j <= hi <= s@.len(),
            r@ =~= s@.subrange(lo as int, j as int),
        decreases hi - j,
    {
        r.push(s[j]);
        j = j + 1;
    }
    r
}

fn without_sign(s: &Vec<char>) -> (r: Vec<char>)
    ensures
        r@ == strip_sign(s@),
{
    if s.len() > 0 && (s[0] == '+' || s[0] == '-') {
        let r = slice_chars(s, 1, s.len());
        assert(r@ =~= s@.drop_first());
        r
    } else {
        slice_chars(s, 0, s.len())
    }
}

fn same_word_ignoring_case(s: &Vec<char>, w: &str) -> (r: bool)
    ensures
        r == equals_ignoring_case(s@, w@),
{
    let n = w.unicode_len();
    if n != s.len() {
        return false;
    }
    let mut i: usize = 0;
    while i < n
        invariant
            n == w@.len() == s@.len(),
            0 <= i <= n,
            forall|j: int|
                0 <= j < i ==> (s@[j] == w@[j] || ('A' <= s@[j] && s@[j] <= 'Z' && s@[j] as u32
                    + 32 == w@[j] as u32)),
        decreases n - i,
    {
        let c = s[i];
        let d = w.get_char(i);
        if !(c == d || ('A' <= c && c <= 'Z' && (c as u32) + 32 == d as u32)) {
            return false;
        }
        i = i + 1;
    }
    true
}

fn mantissa(m: &Vec<char>) -> (r: bool)
    ensures
        r == is_mantissa(m@),
{
    let mut i: usize = 0;
    let mut dot: bool = false;
    let mut digit: bool = false;
    while i < m.len()
        invariant
            0 <= i <= m@.len(),
            forall|j: int| 0 <= j < i ==> is_digit(m@[j]) || m@[j] == '.',
            forall|j: int, k: int| 0 <= j < k < i ==> !(m@[j] == '.' && m@[k] == '.'),
            dot <==> exists|j: int| 0 <= j < i && m@[j] == '.',
            digit <==> exists|j: int| 0 <= j < i && is_digit(m@[j]),
        decreases m.len() - i,
    {
        let c = m[i];
        if digit_char(c) {
            digit = true;
        } else if c == '.' {
            if dot {
                let ghost j = choose|j: int| 0 <= j < i && m@[j] == '.';
                assert(m@[j] == '.' && m@[i as int] == '.');
                return false;
            }
            dot = true;
        } else {
            return false;
        }
        i = i + 1;
    }
    digit
}

fn exponent(x: &Vec<char>) -> (r: bool)
    ensures
        r == is_exponent(x@),
{
    let y = without_sign(x);
    if y.len() == 0 {
        return false;
    }
    let mut i: usize = 0;
    while i < y.len()
        invariant
            0 <= i <= y@.len(),
            y@ == strip_sign(x@),
            forall|j: int| 0 <= j < i ==> is_digit(y@[j]),
        decreases y.len() - i,
    {
        if !digit_char(y[i]) {
            assert(!is_digit(y@[i as int]));
            return false;
        }
        i = i + 1;
    }
    true
}

fn decimal(b: &Vec<char>) -> (r: bool)
    ensures
        r == is_decimal(b@),
{
    let mut k: usize = 0;
    while k < b.len() && !(b[k] == 'e' || b[k] == 'E')
        invariant
            0 <= k <= b@.len(),
            forall|j: int| 0 <= j < k ==> !is_exp_mark(b@[j]),
        decreases b.len() - k,
    {
        k = k + 1;
    }
    if k == b.len() {
        let r = mantissa(b);
        assert(b@.subrange(0, b@.len() as int) =~= b@);
        assert(forall|j: int| 0 <= j < b@.len() ==> !is_exp_mark(b@[j]));
        r
    } else {
        let m = slice_chars(b, 0, k);
        let x = slice_chars(b, k + 1, b.len());
        let r = mantissa(&m) && exponent(&x);
        assert(is_exp_mark(b@[k as int]));
        if !r {
            assert forall|q: int|
                0 <= q < b@.len() && is_exp_mark(b@[q]) implies !(is_mantissa(b@.subrange(0, q))
                && is_exponent(b@.subrange(q + 1, b@.len() as int))) by {
                if q > k {
                    assert(b@.subrange(0, q)[k as int] == b@[k as int]);
                }
            }
        }
        r
    }
}

fn float_text(s: &Vec<char>) -> (r: bool)
    ensures
        r == is_float_text(s@),
{
    let b = without_sign(s);
    same_word_ignoring_case(&b, "inf") || same_word_ignoring_case(&b, "infinity")
        || same_word_ignoring_case(&b, "nan") || decimal(&b)
}

/// The classifier's decision for `text`, given its features as the outside
/// crates computed them.
pub fn classify(text: &str, features: &TextFeatures) -> (r: bool)
    ensures
        r == system_rule(text@, *features),
{
    let t = chars_of(text);
    let tr = chars_of(trim_str(text));
    let low = chars_of(features.lowered.as_str());
    tr.len() == 0 || float_text(&tr) || contains_char(&t, '/') || features.url
        || features.file_ext || system_prefix(&low) || features.control_code
        || features.event_name || features.plugin_command || has_infix(&low, "$game")
        || features.symbols_only
}

/// Whether `text` is system or technical text that must not be offered for
/// translation.
pub fn is_system_text_of(text: &str) -> (r: bool)
    ensures
        r == is_system_text(text@),
{
    let t = chars_of(text);
    let trimmed = trim_str(text);
    let tr = chars_of(trimmed);
    if tr.len() == 0 || float_text(&tr) || contains_char(&t, '/') {
        return true;
    }
    let lowered = lowercase(text);
    let features = TextFeatures {
        url: regex_hit(URL_PATTERN, text),
        file_ext: regex_hit(FILE_EXT_PATTERN, text),
        control_code: regex_hit(CONTROL_CODE_PATTERN, trimmed),
        event_name: regex_hit(EVENT_NAME_PATTERN, text),
        plugin_command: regex_hit(PLUGIN_COMMAND_PATTERN, text),
        symbols_only: regex_hit(SYMBOLS_ONLY_PATTERN, text),
        lowered,
    };
    classify(text, &features)
}

} // verus!
