//! Characters, grapheme clusters, and the classes the layout sorts them into.

use unicode_segmentation::UnicodeSegmentation;
use vstd::prelude::*;

verus! {

/// The extended grapheme clusters (UAX #29) of a text, as `unicode-segmentation` finds them.
pub uninterp spec fn grapheme_clusters(text: Seq<char>) -> Seq<Seq<char>>;

/// The pieces of `parts`, one after another.
pub open spec fn concat_all(parts: Seq<Seq<char>>) -> Seq<char>
    decreases parts.len(),
{
    if parts.len() == 0 {
        Seq::empty()
    } else {
        concat_all(parts.drop_last()) + parts.last()
    }
}

/// The views of a sequence of strings.
pub open spec fn string_views(strings: Seq<String>) -> Seq<Seq<char>> {
    strings.map_values(|s: String| s@)
}

/// `parts` cuts `text` into non-empty pieces without adding, dropping or moving anything.
pub open spec fn partitions(parts: Seq<Seq<char>>, text: Seq<char>) -> bool {
    &&& concat_all(parts) == text
    &&& forall|i: int| 0 <= i < parts.len() ==> (#[trigger] parts[i]).len() > 0
}

pub open spec fn is_line_break_char(c: char) -> bool {
    c == '\n' || c == '\r'
}

/// A cluster that is a line break: LF, CR, or CR LF.
pub open spec fn is_line_break_cluster(c: Seq<char>) -> bool {
    c == seq!['\n'] || c == seq!['\r'] || c == seq!['\r', '\n']
}

/// UAX #29 rules GB3–GB5 over a segmentation: CR and LF stand in clusters of their own, except
/// that a CR directly followed by an LF forms one cluster with it.
pub open spec fn line_breaks_apart(parts: Seq<Seq<char>>) -> bool {
    &&& forall|i: int, k: int|
        0 <= i < parts.len() && 0 <= k < parts[i].len() && is_line_break_char(#[trigger] parts[i][k])
            ==> is_line_break_cluster(parts[i])
    &&& forall|i: int|
        0 <= i < parts.len() - 1 && #[trigger] parts[i] == seq!['\r'] ==> parts[i + 1][0] != '\n'
}

/// A cluster that begins with a Latin letter, a digit or one of the ASCII word connectors holds
/// no U+2010. In the crate's tables U+2010 has no grapheme category of its own (`GC_Any`), and
/// `check_pair` joins such a character to the one before it only after a `GC_Prepend` (GB9b);
/// a `GC_Prepend` in turn joins only after another one, and none of the characters named here
/// is one (the crate's `GC_Prepend` ranges start at U+0600).
pub open spec fn word_clusters_dash_free(parts: Seq<Seq<char>>) -> bool {
    forall|i: int, k: int|
        0 <= i < parts.len() && 0 < parts[i].len() && (spec_is_word_char(parts[i][0])
            || spec_is_word_connector(parts[i][0])) && 0 <= k < parts[i].len() ==> #[trigger] parts[i][k]
            != '\u{2010}'
}

/// `UnicodeSegmentation::graphemes(text, true)` from `unicode-segmentation`.
///
/// Claims that the clusters are `grapheme_clusters(text)`; that they cut the text into
/// non-empty pieces in order (the iterator hands out `&text[start..next]` for successive
/// boundaries `next > start` from 0 to the end); that CR and LF are kept apart as the crate's
/// `check_pair` rules GB3–GB5 say; and that a cluster led by a Latin letter, digit or ASCII word
/// connector holds no U+2010 (see `word_clusters_dash_free`). Nothing else about where
/// boundaries fall is claimed.
#[verifier::external_body]
pub(crate) fn graphemes(text: &str) -> (clusters: Vec<String>)
    ensures
        string_views(clusters@) == grapheme_clusters(text@),
        partitions(string_views(clusters@), text@),
        line_breaks_apart(string_views(clusters@)),
        word_clusters_dash_free(string_views(clusters@)),
{
    text.graphemes(true).map(|cluster| cluster.to_owned()).collect()
}

pub open spec fn in_range(c: char, lo: u32, hi: u32) -> bool {
    lo <= (c as u32) && (c as u32) <= hi
}

/// Mongolian and the Mongolian Supplement blocks.
pub open spec fn spec_is_mongolian(c: char) -> bool {
    in_range(c, 0x1800, 0x18AF) || in_range(c, 0x11660, 0x1167F)
}

pub fn is_mongolian(ch: char) -> (r: bool)
    ensures
        r == spec_is_mongolian(ch),
{
    let c = ch as u32;
    (0x1800 <= c && c <= 0x18AF) || (0x11660 <= c && c <= 0x1167F)
}

/// U+202F NARROW NO-BREAK SPACE: in bichig, the joint between a stem and its case ending.
pub open spec fn spec_is_suffix_separator(c: char) -> bool {
    c == '\u{202F}'
}

pub fn is_suffix_separator(ch: char) -> (r: bool)
    ensures
        r == spec_is_suffix_separator(ch),
{
    ch == '\u{202F}'
}

/// Han, kana, and hangul: the scripts set upright one grapheme per slot.
pub open spec fn spec_is_cjk(c: char) -> bool {
    ||| in_range(c, 0x3400, 0x4DBF)
    ||| in_range(c, 0x4E00, 0x9FFF)
    ||| in_range(c, 0xF900, 0xFAFF)
    ||| in_range(c, 0x3040, 0x30FF)
    ||| in_range(c, 0x31F0, 0x31FF)
    ||| in_range(c, 0xAC00, 0xD7AF)
}

pub fn is_cjk(ch: char) -> (r: bool)
    ensures
        r == spec_is_cjk(ch),
{
    let c = ch as u32;
    (0x3400 <= c && c <= 0x4DBF) || (0x4E00 <= c && c <= 0x9FFF) || (0xF900 <= c && c <= 0xFAFF)
        || (0x3040 <= c && c <= 0x30FF) || (0x31F0 <= c && c <= 0x31FF) || (0xAC00 <= c && c
        <= 0xD7AF)
}

/// Basic Latin letters, Latin-1 and Latin Extended-A/B letters, and Latin Extended Additional.
pub open spec fn spec_is_latin(c: char) -> bool {
    ||| in_range(c, 0x41, 0x5A)
    ||| in_range(c, 0x61, 0x7A)
    ||| in_range(c, 0xC0, 0x24F)
    ||| in_range(c, 0x1E00, 0x1EFF)
}

pub fn is_latin(ch: char) -> (r: bool)
    ensures
        r == spec_is_latin(ch),
{
    let c = ch as u32;
    (0x41 <= c && c <= 0x5A) || (0x61 <= c && c <= 0x7A) || (0xC0 <= c && c <= 0x24F) || (0x1E00
        <= c && c <= 0x1EFF)
}

/// A character that makes up a Latin word: a Latin letter, an ASCII digit, or an underscore.
pub open spec fn spec_is_word_char(c: char) -> bool {
    spec_is_latin(c) || ('0' <= c && c <= '9') || c == '_'
}

pub fn is_word_char(ch: char) -> (r: bool)
    ensures
        r == spec_is_word_char(ch),
{
    is_latin(ch) || ('0' <= ch && ch <= '9') || ch == '_'
}

/// Punctuation that joins the letters on either side of it into one word (`min-U`, `kedU(n)`,
/// `gerel.net`). The slash is not one: it separates alternatives.
pub open spec fn spec_is_word_connector(c: char) -> bool {
    ||| c == ':'
    ||| c == '"'
    ||| c == '\''
    ||| c == '('
    ||| c == ')'
    ||| c == '{'
    ||| c == '}'
    ||| c == '='
    ||| c == '<'
    ||| c == '>'
    ||| c == '['
    ||| c == ']'
    ||| c == '|'
    ||| c == '-'
    ||| c == '.'
    ||| c == '+'
    ||| c == '_'
}

pub fn is_word_connector(ch: char) -> (r: bool)
    ensures
        r == spec_is_word_connector(ch),
{
    ch == ':' || ch == '"' || ch == '\'' || ch == '(' || ch == ')' || ch == '{' || ch == '}' || ch
        == '=' || ch == '<' || ch == '>' || ch == '[' || ch == ']' || ch == '|' || ch == '-' || ch
        == '.' || ch == '+' || ch == '_'
}

/// Stops, commas and semicolons: they move to the corner of their em square.
pub open spec fn spec_is_corner_punctuation(c: char) -> bool {
    ||| c == '，'
    ||| c == '、'
    ||| c == '。'
    ||| c == '．'
    ||| c == '｡'
    ||| c == '､'
    ||| c == '；'
    ||| c == ';'
}

pub fn is_corner_punctuation(ch: char) -> (r: bool)
    ensures
        r == spec_is_corner_punctuation(ch),
{
    ch == '，' || ch == '、' || ch == '。' || ch == '．' || ch == '｡' || ch == '､' || ch == '；'
        || ch == ';'
}

/// Punctuation that turns a quarter-circle in a vertical column: brackets, quotes, the ASCII
/// marks that stand between clauses, horizontal arrows, the fullwidth colon, dashes and ellipses.
pub open spec fn spec_has_vertical_form(c: char) -> bool {
    ||| c == '(' || c == ')' || c == '[' || c == ']' || c == '{' || c == '}' || c == '<' || c == '>'
    ||| c == ':' || c == '"' || c == '\'' || c == '=' || c == '|'
    ||| c == '→' || c == '←' || c == '↔' || c == '⇒' || c == '⇐' || c == '⇔' || c == '⟶' || c == '⟵'
        || c == '⟷'
    ||| c == '➔' || c == '➜' || c == '➝' || c == '➞' || c == '⇢' || c == '⇠' || c == '↦' || c == '↤'
        || c == '⊸'
    ||| c == '（' || c == '）' || c == '［' || c == '］' || c == '｛' || c == '｝'
    ||| c == '〈' || c == '〉' || c == '《' || c == '》' || c == '「' || c == '」' || c == '『' || c
        == '』'
    ||| c == '【' || c == '】' || c == '〔' || c == '〕' || c == '“' || c == '”' || c == '‘' || c
        == '’'
    ||| c == '：'
    ||| c == '—' || c == '―' || c == '－' || c == '–' || c == '‐' || c == '‑' || c == '‒' || c == '−'
        || c == '⸺' || c == '⸻'
    ||| c == '…' || c == '‥' || c == '〜' || c == '～' || c == '｜' || c == '‖'
}

pub fn has_vertical_form(ch: char) -> (r: bool)
    ensures
        r == spec_has_vertical_form(ch),
{
    let c = ch;
    (c == '(' || c == ')' || c == '[' || c == ']' || c == '{' || c == '}' || c == '<' || c == '>')
    || (c == ':' || c == '"' || c == '\'' || c == '=' || c == '|')
    || (c == '→' || c == '←' || c == '↔' || c == '⇒' || c == '⇐' || c == '⇔' || c == '⟶' || c == '⟵'
        || c == '⟷')
    || (c == '➔' || c == '➜' || c == '➝' || c == '➞' || c == '⇢' || c == '⇠' || c == '↦' || c == '↤'
        || c == '⊸')
    || (c == '（' || c == '）' || c == '［' || c == '］' || c == '｛' || c == '｝')
    || (c == '〈' || c == '〉' || c == '《' || c == '》' || c == '「' || c == '」' || c == '『' || c
        == '』')
    || (c == '【' || c == '】' || c == '〔' || c == '〕' || c == '“' || c == '”' || c == '‘' || c
        == '’')
    || c == '：'
    || (c == '—' || c == '―' || c == '－' || c == '–' || c == '‐' || c == '‑' || c == '‒' || c == '−'
        || c == '⸺' || c == '⸻')
    || (c == '…' || c == '‥' || c == '〜' || c == '～' || c == '｜' || c == '‖')
}

/// The Unicode `White_Space` property (PropList.txt), which `char::is_whitespace` reports.
pub open spec fn spec_is_white_space(c: char) -> bool {
    ||| in_range(c, 0x09, 0x0D)
    ||| c == ' '
    ||| c == '\u{85}'
    ||| c == '\u{A0}'
    ||| c == '\u{1680}'
    ||| in_range(c, 0x2000, 0x200A)
    ||| c == '\u{2028}'
    ||| c == '\u{2029}'
    ||| c == '\u{202F}'
    ||| c == '\u{205F}'
    ||| c == '\u{3000}'
}

pub fn is_white_space(ch: char) -> (r: bool)
    ensures
        r == spec_is_white_space(ch),
{
    let c = ch as u32;
    (0x09 <= c && c <= 0x0D) || c == 0x20 || c == 0x85 || c == 0xA0 || c == 0x1680 || (0x2000 <= c
        && c <= 0x200A) || c == 0x2028 || c == 0x2029 || c == 0x202F || c == 0x205F || c == 0x3000
}


/// The characters of `s`, one by one.
pub fn chars_of(s: &str) -> (v: Vec<char>)
    ensures
        v@ == s@,
{
    let mut v: Vec<char> = Vec::new();
    for c in it: s.chars()
        invariant
            v@ == it.seq().take(it.index() as int),
    {
        v.push(c);
    }
    v
}


/// The number of bytes of the UTF-8 encoding of `s`.
pub open spec fn byte_len(s: Seq<char>) -> nat {
    vstd::utf8::encode_utf8(s).len()
}

pub proof fn lemma_encode_append(a: Seq<char>, b: Seq<char>)
    ensures
        vstd::utf8::encode_utf8(a + b) == vstd::utf8::encode_utf8(a) + vstd::utf8::encode_utf8(b),
    decreases a.len(),
{
    if a.len() == 0 {
        assert(a + b =~= b);
        assert(vstd::utf8::encode_utf8(a) =~= Seq::<u8>::empty());
        assert(Seq::<u8>::empty() + vstd::utf8::encode_utf8(b) =~= vstd::utf8::encode_utf8(b));
    } else {
        lemma_encode_append(a.drop_first(), b);
        assert((a + b).drop_first() =~= a.drop_first() + b);
        assert((a + b)[0] == a[0]);
        assert(vstd::utf8::encode_utf8(a + b) =~= vstd::utf8::encode_scalar(a[0] as u32)
            + vstd::utf8::encode_utf8(a.drop_first() + b));
    }
}

pub proof fn lemma_byte_len_append(a: Seq<char>, b: Seq<char>)
    ensures
        byte_len(a + b) == byte_len(a) + byte_len(b),
{
    lemma_encode_append(a, b);
}

/// A prefix has no more bytes than the whole.
pub proof fn lemma_byte_len_prefix(s: Seq<char>, n: int)
    requires
        0 <= n <= s.len(),
    ensures
        byte_len(s.take(n)) <= byte_len(s),
        byte_len(s) == byte_len(s.take(n)) + byte_len(s.skip(n)),
{
    lemma_byte_len_append(s.take(n), s.skip(n));
    assert(s.take(n) + s.skip(n) =~= s);
}

/// The number of bytes of `s` in UTF-8.
pub fn byte_count(s: &str) -> (n: usize)
    ensures
        n == byte_len(s@),
{
    s.as_bytes().len()
}


/// `String::push` from std: appends one character.
#[verifier::external_body]
pub(crate) fn push_char(s: &mut String, c: char)
    ensures
        final(s)@ == old(s)@.push(c),
{
    s.push(c);
}

/// The ASCII digit for `d`, which must be below ten.
pub open spec fn digit_char(d: nat) -> char {
    ((48 + d) as u8) as char
}

/// The decimal numeral of `n`, without leading zeros.
pub open spec fn decimal(n: nat) -> Seq<char>
    decreases n,
{
    if n < 10 {
        seq![digit_char(n)]
    } else {
        decimal(n / 10).push(digit_char(n % 10))
    }
}

/// Appends the decimal numeral of `n` to `out`.
pub fn push_decimal(out: &mut String, n: usize)
    ensures
        final(out)@ == old(out)@ + decimal(n as nat),
    decreases n,
{
    if n >= 10 {
        push_decimal(out, n / 10);
    }
    let d = (n % 10) as u8;
    push_char(out, (48 + d) as char);
    proof {
        assert(old(out)@ + decimal(n as nat) =~= if n < 10 {
            old(out)@.push(digit_char(n as nat))
        } else {
            (old(out)@ + decimal((n / 10) as nat)).push(digit_char((n % 10) as nat))
        });
    }
}

} // verus!
