use crate::geometry::{lemma_map_bounds, PageGeometry, PointRect, TextBounds};
use vstd::prelude::*;

verus! {

/// A positioned piece of page text: its string, its box in the rendered
/// bitmap's pixel space, and a font size equal to the box height.
pub struct TextElement {
    pub text: String,
    pub bounds: TextBounds,
    pub font_size: i64,
}

/// The mathematical value of a `TextElement`.
pub struct TextElementView {
    pub text: Seq<char>,
    pub bounds: TextBounds,
    pub font_size: i64,
}

impl View for TextElement {
    type V = TextElementView;

    open spec fn view(&self) -> TextElementView {
        TextElementView { text: self.text@, bounds: self.bounds, font_size: self.font_size }
    }
}

impl TextElement {
    /// An equal, independent copy.
    pub fn copy_of(&self) -> (r: TextElement)
        ensures
            r@ == self@,
    {
        TextElement { text: self.text.clone(), bounds: self.bounds, font_size: self.font_size }
    }
}

/// The values of a sequence of elements.
pub open spec fn views(s: Seq<TextElement>) -> Seq<TextElementView> {
    s.map_values(|e: TextElement| e@)
}

pub(crate) proof fn lemma_views_push(s: Seq<TextElement>, e: TextElement)
    ensures
        views(s.push(e)) == views(s).push(e@),
{
    assert(views(s.push(e)) =~= views(s).push(e@));
}

/// Whether the character has the Unicode `White_Space` property: tab, line
/// feed, vertical tab, form feed, carriage return, space, next line, no-break
/// space, Ogham space mark, the spaces U+2000 to U+200A, line and paragraph
/// separators, narrow no-break space, medium mathematical space and
/// ideographic space.
pub open spec fn whitespace_char(c: char) -> bool {
    let u = c as u32;
    ||| 0x09 <= u <= 0x0d
    ||| u == 0x20
    ||| u == 0x85
    ||| u == 0xa0
    ||| u == 0x1680
    ||| 0x2000 <= u <= 0x200a
    ||| u == 0x2028
    ||| u == 0x2029
    ||| u == 0x202f
    ||| u == 0x205f
    ||| u == 0x3000
}

/// Whether the character counts as numeric.
pub uninterp spec fn numeric_char(c: char) -> bool;

/// The text without its leading white space.
pub open spec fn trim_start_spec(s: Seq<char>) -> Seq<char>
    decreases s.len(),
{
    if s.len() > 0 && whitespace_char(s[0]) {
        trim_start_spec(s.skip(1))
    } else {
        s
    }
}

/// The text without its trailing white space.
pub open spec fn trim_end_spec(s: Seq<char>) -> Seq<char>
    decreases s.len(),
{
    if s.len() > 0 && whitespace_char(s.last()) {
        trim_end_spec(s.drop_last())
    } else {
        s
    }
}

/// The text with leading and trailing white space removed.
pub open spec fn trimmed(s: Seq<char>) -> Seq<char> {
    trim_end_spec(trim_start_spec(s))
}

/// Whether the character is white space, as `whitespace_char` lists it.
pub fn is_whitespace(c: char) -> (r: bool)
    ensures
        r == whitespace_char(c),
{
    let u = c as u32;
    (0x09 <= u && u <= 0x0d) || u == 0x20 || u == 0x85 || u == 0xa0 || u == 0x1680 || (0x2000 <= u
        && u <= 0x200a) || u == 0x2028 || u == 0x2029 || u == 0x202f || u == 0x205f || u == 0x3000
}

/// Relies on `char::is_numeric`: whether the character is in one of the
/// Unicode numeric categories.
#[verifier::external_body]
fn is_numeric(c: char) -> (r: bool)
    ensures
        r == numeric_char(c),
{
    c.is_numeric()
}

/// The slice without leading and trailing white space.
pub(crate) fn trim_text(s: &str) -> (r: &str)
    ensures
        r@ == trimmed(s@),
{
    let n = s.unicode_len();
    let mut a: usize = 0;
    proof {
        assert(s@.skip(0) =~= s@);
    }
    while a < n && is_whitespace(s.get_char(a))
        invariant
            n == s@.len(),
            a <= n,
            trim_start_spec(s@.skip(a as int)) == trim_start_spec(s@),
        decreases n - a,
    {
        proof {
            assert(s@.skip(a as int).skip(1) =~= s@.skip(a + 1));
        }
        a = a + 1;
    }
    proof {
        if a < n {
            assert(!whitespace_char(s@.skip(a as int)[0]));
        }
        assert(trim_start_spec(s@) == s@.skip(a as int));
        assert(s@.skip(a as int) =~= s@.subrange(a as int, n as int));
    }
    let mut b: usize = n;
    while b > a && is_whitespace(s.get_char(b - 1))
        invariant
            n == s@.len(),
            a <= b <= n,
            trim_end_spec(s@.subrange(a as int, b as int)) == trim_end_spec(s@.subrange(a as int, n as int)),
        decreases b,
    {
        proof {
            assert(s@.subrange(a as int, b as int).drop_last() =~= s@.subrange(a as int, b - 1));
        }
        b = b - 1;
    }
    proof {
        if b > a {
            assert(s@.subrange(a as int, b as int).last() == s@[b - 1]);
        }
    }
    s.substring_char(a, b)
}

/// Relies on `String::push`: the character is appended.
#[verifier::external_body]
pub(crate) fn push_char(s: &mut String, c: char)
    ensures
        final(s)@ == old(s)@.push(c),
{
    s.push(c)
}

/// The characters of a string slice, one per element.
pub(crate) fn chars_of(s: &str) -> (r: Vec<char>)
    ensures
        r@ == s@,
{
    let n = s.unicode_len();
    let mut out: Vec<char> = Vec::with_capacity(n);
    let mut i: usize = 0;
    while i < n
        invariant
            n == s@.len(),
            i <= n,
            out@ == s@.take(i as int),
        decreases n - i,
    {
        out.push(s.get_char(i));
        i = i + 1;
        proof {
            assert(out@ =~= s@.take(i as int));
        }
    }
    proof {
        assert(out@ =~= s@);
    }
    out
}

/// One decoded character of a page with its box in point space.
#[derive(Clone, Copy, Debug, PartialEq, Eq, Structural)]
pub struct Glyph {
    pub ch: char,
    pub rect: PointRect,
}

/// The state of a left-to-right pass over the glyphs: the words emitted so
/// far and the word being accumulated, if any.
pub struct WordScan {
    pub words: Seq<TextElementView>,
    pub current: Option<TextElementView>,
}

/// A word that starts with one character whose pixel box is `b`.
pub open spec fn start_word(c: char, b: TextBounds) -> TextElementView {
    TextElementView { text: seq![c], bounds: b, font_size: b.height }
}

/// A word extended by one character whose pixel box is `b`: the origin stays
/// at the first character, the width reaches the new character's right edge,
/// and the height is the larger of the two.
pub open spec fn extend_word(w: TextElementView, c: char, b: TextBounds) -> TextElementView {
    let height = if b.height > w.bounds.height {
        b.height
    } else {
        w.bounds.height
    };
    TextElementView {
        text: w.text.push(c),
        bounds: TextBounds {
            x: w.bounds.x,
            y: w.bounds.y,
            width: (b.x + b.width - w.bounds.x) as i64,
            height,
        },
        font_size: height,
    }
}

/// One step of the pass: white space closes the current word, any other
/// character starts or extends one.
pub open spec fn scan_step(g: PageGeometry, st: WordScan, gl: Glyph) -> WordScan {
    let b = g.map_spec(gl.rect);
    if whitespace_char(gl.ch) {
        match st.current {
            Some(w) => WordScan { words: st.words.push(w), current: None },
            None => st,
        }
    } else {
        match st.current {
            Some(w) => WordScan { words: st.words, current: Some(extend_word(w, gl.ch, b)) },
            None => WordScan { words: st.words, current: Some(start_word(gl.ch, b)) },
        }
    }
}

/// The pass over a sequence of glyphs, in document order.
pub open spec fn scan_words(g: PageGeometry, glyphs: Seq<Glyph>) -> WordScan
    decreases glyphs.len(),
{
    if glyphs.len() == 0 {
        WordScan { words: Seq::empty(), current: None }
    } else {
        scan_step(g, scan_words(g, glyphs.drop_last()), glyphs.last())
    }
}

/// The words of a glyph sequence, the last pending word flushed at the end.
pub open spec fn group_words_spec(g: PageGeometry, glyphs: Seq<Glyph>) -> Seq<TextElementView> {
    let st = scan_words(g, glyphs);
    match st.current {
        Some(w) => st.words.push(w),
        None => st.words,
    }
}

/// Groups glyphs into words at white space, each word's box the union of its
/// characters' pixel boxes as `extend_word` describes.
pub fn group_words(g: &PageGeometry, glyphs: &Vec<Glyph>) -> (r: Vec<TextElement>)
    requires
        g.wf(),
    ensures
        views(r@) == group_words_spec(*g, glyphs@),
{
    let mut words: Vec<TextElement> = Vec::new();
    let mut has_word = false;
    let mut text = String::new();
    let mut bounds = TextBounds { x: 0, y: 0, width: 0, height: 0 };
    let mut i: usize = 0;
    while i < glyphs.len()
        invariant
            g.wf(),
            i <= glyphs@.len(),
            views(words@) == scan_words(*g, glyphs@.take(i as int)).words,
            has_word == scan_words(*g, glyphs@.take(i as int)).current is Some,
            has_word ==> scan_words(*g, glyphs@.take(i as int)).current == Some(
                TextElementView { text: text@, bounds, font_size: bounds.height },
            ),
            has_word ==> -0x100_0000_0000_0000 < bounds.x < 0x100_0000_0000_0000,
        decreases glyphs@.len() - i,
    {
        let gl = glyphs[i];
        proof {
            assert(glyphs@.take(i + 1).drop_last() =~= glyphs@.take(i as int));
            lemma_map_bounds(*g, gl.rect);
        }
        let b = g.map_rect(gl.rect);
        if is_whitespace(gl.ch) {
            if has_word {
                let done = TextElement { text, bounds, font_size: bounds.height };
                proof {
                    lemma_views_push(words@, done);
                }
                words.push(done);
                text = String::new();
                has_word = false;
            }
        } else if has_word {
            push_char(&mut text, gl.ch);
            let height = if b.height > bounds.height {
                b.height
            } else {
                bounds.height
            };
            bounds = TextBounds { x: bounds.x, y: bounds.y, width: b.x + b.width - bounds.x, height };
        } else {
            text = String::new();
            push_char(&mut text, gl.ch);
            bounds = b;
            has_word = true;
            proof {
                assert(text@ =~= seq![gl.ch]);
            }
        }
        i = i + 1;
    }
    proof {
        assert(glyphs@.take(i as int) =~= glyphs@);
    }
    if has_word {
        let done = TextElement { text, bounds, font_size: bounds.height };
        proof {
            lemma_views_push(words@, done);
        }
        words.push(done);
    }
    words
}

/// The trimmed text of an element, which the filter compares.
pub open spec fn text_of(e: TextElementView) -> Seq<char> {
    trimmed(e.text)
}

/// The number of bytes a character takes in UTF-8.
pub open spec fn utf8_width(c: char) -> nat {
    if (c as u32) < 0x80 {
        1
    } else if (c as u32) < 0x800 {
        2
    } else if (c as u32) < 0x10000 {
        3
    } else {
        4
    }
}

/// The number of bytes a text takes in UTF-8.
pub open spec fn utf8_len(t: Seq<char>) -> nat
    decreases t.len(),
{
    if t.len() == 0 {
        0
    } else {
        utf8_len(t.drop_last()) + utf8_width(t.last())
    }
}

/// Every character of the text is numeric.
pub open spec fn all_numeric(t: Seq<char>) -> bool {
    forall|i: int| 0 <= i < t.len() ==> numeric_char(#[trigger] t[i])
}

/// Text without value on an overlay: under two UTF-8 bytes (empty, or one
/// ASCII character), or a numeric string of at most three bytes, which is
/// most likely a page number.
pub open spec fn is_noise_text(t: Seq<char>) -> bool {
    utf8_len(t) < 2 || (utf8_len(t) <= 3 && all_numeric(t))
}

pub open spec fn is_noise(e: TextElementView) -> bool {
    is_noise_text(text_of(e))
}

/// The elements that are not noise, in their order.
pub open spec fn drop_noise(s: Seq<TextElementView>) -> Seq<TextElementView>
    decreases s.len(),
{
    if s.len() == 0 {
        s
    } else {
        let r = drop_noise(s.drop_last());
        if is_noise(s.last()) {
            r
        } else {
            r.push(s.last())
        }
    }
}

/// Reading order: by `y`, then by `x`.
pub open spec fn pos_le(a: TextElementView, b: TextElementView) -> bool {
    a.bounds.y < b.bounds.y || (a.bounds.y == b.bounds.y && a.bounds.x <= b.bounds.x)
}

/// Inserts `e` after every element that does not come after it.
pub open spec fn insert_by_pos(s: Seq<TextElementView>, e: TextElementView) -> Seq<TextElementView>
    decreases s.len(),
{
    if s.len() == 0 {
        seq![e]
    } else if pos_le(s.last(), e) {
        s.push(e)
    } else {
        insert_by_pos(s.drop_last(), e).push(s.last())
    }
}

/// Stable sort into reading order.
pub open spec fn sort_by_pos(s: Seq<TextElementView>) -> Seq<TextElementView>
    decreases s.len(),
{
    if s.len() == 0 {
        s
    } else {
        insert_by_pos(sort_by_pos(s.drop_last()), s.last())
    }
}

/// `t` occurs in `s` as a contiguous run.
pub open spec fn is_substring(t: Seq<char>, s: Seq<char>) -> bool {
    exists|i: int| 0 <= i && i + t.len() <= s.len() && #[trigger] s.subrange(i, i + t.len()) == t
}

/// `t` occurs in `s`, and `s` is longer.
pub open spec fn proper_substring(t: Seq<char>, s: Seq<char>) -> bool {
    t.len() < s.len() && is_substring(t, s)
}

/// The length shared by `[a0, a0 + aw)` and `[b0, b0 + bw)` (negative when
/// they are apart).
pub open spec fn shared_extent(a0: int, aw: int, b0: int, bw: int) -> int {
    let lo = if a0 > b0 {
        a0
    } else {
        b0
    };
    let hi = if a0 + aw < b0 + bw {
        a0 + aw
    } else {
        b0 + bw
    };
    hi - lo
}

/// `f` covers more than 70% of `a`'s box both horizontally and vertically.
pub open spec fn overlaps(a: TextElementView, f: TextElementView) -> bool {
    let sx = shared_extent(a.bounds.x as int, a.bounds.width as int, f.bounds.x as int, f.bounds.width as int);
    let sy = shared_extent(a.bounds.y as int, a.bounds.height as int, f.bounds.y as int, f.bounds.height as int);
    &&& sx > 0
    &&& sy > 0
    &&& 10 * sx > 7 * a.bounds.width
    &&& 10 * sy > 7 * a.bounds.height
}

/// The already accepted `a` rules out `f`: the same text, a longer text
/// holding `f`'s, or an overlapping box with text at least as long.
pub open spec fn drops(a: TextElementView, f: TextElementView) -> bool {
    ||| text_of(a) == text_of(f)
    ||| proper_substring(text_of(f), text_of(a))
    ||| (overlaps(a, f) && text_of(a).len() >= text_of(f).len())
}

/// The already accepted `a` gives way to `f`: `f`'s text holds `a`'s and is
/// longer, or their boxes overlap and `f`'s text is longer.
pub open spec fn displaced(a: TextElementView, f: TextElementView) -> bool {
    ||| proper_substring(text_of(a), text_of(f))
    ||| (overlaps(a, f) && text_of(f).len() > text_of(a).len())
}

/// Some accepted element rules out `f`.
pub open spec fn dropped_by_any(acc: Seq<TextElementView>, f: TextElementView) -> bool {
    exists|j: int| 0 <= j < acc.len() && drops(#[trigger] acc[j], f)
}

/// The accepted elements that do not give way to `f`, in their order.
pub open spec fn remove_displaced(acc: Seq<TextElementView>, f: TextElementView) -> Seq<
    TextElementView,
>
    decreases acc.len(),
{
    if acc.len() == 0 {
        acc
    } else {
        let r = remove_displaced(acc.drop_last(), f);
        if displaced(acc.last(), f) {
            r
        } else {
            r.push(acc.last())
        }
    }
}

/// Offers `f` to the accepted list.
pub open spec fn dedupe_step(acc: Seq<TextElementView>, f: TextElementView) -> Seq<TextElementView> {
    if dropped_by_any(acc, f) {
        acc
    } else {
        remove_displaced(acc, f).push(f)
    }
}

/// Offers every element in order to an initially empty accepted list.
pub open spec fn dedupe(s: Seq<TextElementView>) -> Seq<TextElementView>
    decreases s.len(),
{
    if s.len() == 0 {
        s
    } else {
        dedupe_step(dedupe(s.drop_last()), s.last())
    }
}

/// The whole filter: drop noise, sort into reading order, remove overlaps
/// and duplicates.
pub open spec fn filter_text_spec(s: Seq<TextElementView>) -> Seq<TextElementView> {
    dedupe(sort_by_pos(drop_noise(s)))
}

/// Whether a text is noise, as `is_noise_text` describes.
fn noise_text(t: &Vec<char>) -> (r: bool)
    ensures
        r == is_noise_text(t@),
{
    let mut total: usize = 0;
    let mut numeric = true;
    let mut i: usize = 0;
    while i < t.len()
        invariant
            i <= t@.len(),
            total <= 4,
            total < 4 ==> total == utf8_len(t@.take(i as int)),
            total == 4 ==> utf8_len(t@.take(i as int)) >= 4,
            numeric == all_numeric(t@.take(i as int)),
        decreases t@.len() - i,
    {
        let c = t[i];
        proof {
            assert(t@.take(i + 1).drop_last() =~= t@.take(i as int));
            assert(t@.take(i + 1).last() == c);
        }
        let code = c as u32;
        let w: usize = if code < 0x80 {
            1
        } else if code < 0x800 {
            2
        } else if code < 0x10000 {
            3
        } else {
            4
        };
        if total + w >= 4 {
            total = 4;
        } else {
            total = total + w;
        }
        let n = is_numeric(c);
        proof {
            if numeric && n {
                assert forall|k: int| 0 <= k < i + 1 implies numeric_char(
                    #[trigger] t@.take(i + 1)[k],
                ) by {
                    if k < i {
                        assert(t@.take(i + 1)[k] == t@.take(i as int)[k]);
                    }
                }
            }
            if !numeric {
                let k = choose|k: int| 0 <= k < i && !numeric_char(#[trigger] t@.take(i as int)[k]);
                assert(t@.take(i + 1)[k] == t@.take(i as int)[k]);
            }
            if !n {
                assert(t@.take(i + 1)[i as int] == c);
            }
        }
        numeric = numeric && n;
        i = i + 1;
    }
    proof {
        assert(t@.take(i as int) =~= t@);
    }
    total < 2 || (total <= 3 && numeric)
}

/// Whether `needle` occurs in `hay` as a contiguous run.
fn contains_run(hay: &Vec<char>, needle: &Vec<char>) -> (r: bool)
    ensures
        r == is_substring(needle@, hay@),
{
    let n = needle.len();
    let h = hay.len();
    if n > h {
        return false;
    }
    let mut start: usize = 0;
    while start <= h - n
        invariant
            n == needle@.len(),
            h == hay@.len(),
            n <= h,
            start <= h - n + 1,
            forall|k: int| 0 <= k < start ==> #[trigger] hay@.subrange(k, k + n) != needle@,
        decreases h - n + 1 - start,
    {
        let mut j: usize = 0;
        let mut same = true;
        while j < n
            invariant
                n == needle@.len(),
                h == hay@.len(),
                start + n <= h,
                j <= n,
                same == (forall|m: int| 0 <= m < j ==> hay@[start + m] == #[trigger] needle@[m]),
            decreases n - j,
        {
            if hay[start + j] != needle[j] {
                same = false;
            }
            j = j + 1;
        }
        if same {
            proof {
                assert(hay@.subrange(start as int, start + n) =~= needle@);
            }
            return true;
        }
        proof {
            if hay@.subrange(start as int, start + n) == needle@ {
                assert forall|m: int| 0 <= m < n implies hay@[start + m] == needle@[m] by {
                    assert(hay@.subrange(start as int, start + n)[m] == hay@[start + m]);
                }
            }
        }
        start = start + 1;
    }
    false
}

/// Whether two character runs are equal.
fn same_run(a: &Vec<char>, b: &Vec<char>) -> (r: bool)
    ensures
        r == (a@ == b@),
{
    if a.len() != b.len() {
        return false;
    }
    let r = contains_run(a, b);
    proof {
        if r {
            let i = choose|i: int|
                0 <= i && i + b@.len() <= a@.len() && #[trigger] a@.subrange(i, i + b@.len()) == b@;
            assert(i == 0);
            assert(a@.subrange(0, a@.len() as int) =~= a@);
        } else {
            assert(a@.subrange(0, 0 + b@.len() as int) =~= a@);
        }
    }
    r
}

/// The length shared by two intervals, computed without overflow.
fn shared_extent_of(a0: i64, aw: i64, b0: i64, bw: i64) -> (r: i128)
    ensures
        r == shared_extent(a0 as int, aw as int, b0 as int, bw as int),
{
    let lo: i128 = if a0 > b0 {
        a0 as i128
    } else {
        b0 as i128
    };
    let a1 = a0 as i128 + aw as i128;
    let b1 = b0 as i128 + bw as i128;
    let hi: i128 = if a1 < b1 {
        a1
    } else {
        b1
    };
    hi - lo
}

/// Whether `f` covers most of `a`'s box, as `overlaps` describes.
fn overlaps_exec(a: &TextBounds, f: &TextBounds) -> (r: bool)
    ensures
        forall|ta: Seq<char>, tf: Seq<char>, sa: i64, sf: i64|
            r == #[trigger] overlaps(
                TextElementView { text: ta, bounds: *a, font_size: sa },
                TextElementView { text: tf, bounds: *f, font_size: sf },
            ),
{
    let sx = shared_extent_of(a.x, a.width, f.x, f.width);
    let sy = shared_extent_of(a.y, a.height, f.y, f.height);
    sx > 0 && sy > 0 && 10 * sx > 7 * (a.width as i128) && 10 * sy > 7 * (a.height as i128)
}

/// The trimmed characters of an element's text.
fn trimmed_chars(e: &TextElement) -> (r: Vec<char>)
    ensures
        r@ == text_of(e@),
{
    chars_of(trim_text(e.text.as_str()))
}

/// Whether the accepted `a` rules out `f`, as `drops` describes.
fn drops_exec(a: &TextElement, f: &TextElement) -> (r: bool)
    ensures
        r == drops(a@, f@),
{
    let ta = trimmed_chars(a);
    let tf = trimmed_chars(f);
    if same_run(&ta, &tf) {
        return true;
    }
    if tf.len() < ta.len() && contains_run(&ta, &tf) {
        return true;
    }
    overlaps_exec(&a.bounds, &f.bounds) && ta.len() >= tf.len()
}

/// Whether the accepted `a` gives way to `f`, as `displaced` describes.
fn displaced_exec(a: &TextElement, f: &TextElement) -> (r: bool)
    ensures
        r == displaced(a@, f@),
{
    let ta = trimmed_chars(a);
    let tf = trimmed_chars(f);
    if ta.len() < tf.len() && contains_run(&tf, &ta) {
        return true;
    }
    overlaps_exec(&a.bounds, &f.bounds) && tf.len() > ta.len()
}

/// Reading order between two elements, as `pos_le` describes.
fn pos_le_exec(a: &TextElement, b: &TextElement) -> (r: bool)
    ensures
        r == pos_le(a@, b@),
{
    a.bounds.y < b.bounds.y || (a.bounds.y == b.bounds.y && a.bounds.x <= b.bounds.x)
}

/// Inserting at the first position after every element that does not come
/// after `e` is what `insert_by_pos` does.
proof fn lemma_insert_at(s: Seq<TextElementView>, e: TextElementView, p: int)
    requires
        0 <= p <= s.len(),
        forall|j: int| p <= j < s.len() ==> !pos_le(#[trigger] s[j], e),
        p > 0 ==> pos_le(s[p - 1], e),
    ensures
        insert_by_pos(s, e) == s.insert(p, e),
    decreases s.len(),
{
    if s.len() == 0 {
        assert(s.insert(p, e) =~= seq![e]);
    } else if p == s.len() {
        assert(s.insert(p, e) =~= s.push(e));
    } else {
        let d = s.drop_last();
        assert(!pos_le(s.last(), e));
        assert forall|j: int| p <= j < d.len() implies !pos_le(#[trigger] d[j], e) by {
            assert(d[j] == s[j]);
        }
        if p > 0 {
            assert(d[p - 1] == s[p - 1]);
        }
        lemma_insert_at(d, e, p);
        assert(d.insert(p, e).push(s.last()) =~= s.insert(p, e));
    }
}

/// The elements of `s` that are not noise, copied in order.
fn drop_noise_exec(s: &Vec<TextElement>) -> (r: Vec<TextElement>)
    ensures
        views(r@) == drop_noise(views(s@)),
{
    let mut out: Vec<TextElement> = Vec::new();
    let mut i: usize = 0;
    while i < s.len()
        invariant
            i <= s@.len(),
            views(out@) == drop_noise(views(s@).take(i as int)),
        decreases s@.len() - i,
    {
        proof {
            assert(views(s@).take(i + 1).drop_last() =~= views(s@).take(i as int));
            assert(views(s@).take(i + 1).last() == s@[i as int]@);
        }
        let t = trimmed_chars(&s[i]);
        if !noise_text(&t) {
            let e = s[i].copy_of();
            proof {
                lemma_views_push(out@, e);
            }
            out.push(e);
        }
        i = i + 1;
    }
    proof {
        assert(views(s@).take(i as int) =~= views(s@));
    }
    out
}

/// A stable insertion sort into reading order.
fn sort_by_pos_exec(s: &Vec<TextElement>) -> (r: Vec<TextElement>)
    ensures
        views(r@) == sort_by_pos(views(s@)),
{
    let mut out: Vec<TextElement> = Vec::new();
    let mut i: usize = 0;
    while i < s.len()
        invariant
            i <= s@.len(),
            views(out@) == sort_by_pos(views(s@).take(i as int)),
        decreases s@.len() - i,
    {
        proof {
            assert(views(s@).take(i + 1).drop_last() =~= views(s@).take(i as int));
            assert(views(s@).take(i + 1).last() == s@[i as int]@);
        }
        let e = s[i].copy_of();
        let mut p: usize = out.len();
        while p > 0 && !pos_le_exec(&out[p - 1], &e)
            invariant
                p <= out@.len(),
                forall|j: int| p <= j < out@.len() ==> !pos_le(#[trigger] views(out@)[j], e@),
            decreases p,
        {
            p = p - 1;
        }
        proof {
            if p > 0 {
                assert(views(out@)[p - 1] == out@[p - 1]@);
            }
            lemma_insert_at(views(out@), e@, p as int);
            assert(views(out@.insert(p as int, e)) =~= views(out@).insert(p as int, e@));
        }
        out.insert(p, e);
        i = i + 1;
    }
    proof {
        assert(views(s@).take(i as int) =~= views(s@));
    }
    out
}

/// Offers each element in order to the accepted list, as `dedupe` describes.
fn dedupe_exec(s: &Vec<TextElement>) -> (r: Vec<TextElement>)
    ensures
        views(r@) == dedupe(views(s@)),
{
    let mut acc: Vec<TextElement> = Vec::new();
    let mut i: usize = 0;
    while i < s.len()
        invariant
            i <= s@.len(),
            views(acc@) == dedupe(views(s@).take(i as int)),
        decreases s@.len() - i,
    {
        proof {
            assert(views(s@).take(i + 1).drop_last() =~= views(s@).take(i as int));
            assert(views(s@).take(i + 1).last() == s@[i as int]@);
        }
        let f = &s[i];
        let mut dropped = false;
        let mut j: usize = 0;
        while j < acc.len()
            invariant
                j <= acc@.len(),
                dropped ==> dropped_by_any(views(acc@), f@),
                !dropped ==> forall|k: int| 0 <= k < j ==> !drops(#[trigger] views(acc@)[k], f@),
            decreases acc@.len() - j,
        {
            if drops_exec(&acc[j], f) {
                proof {
                    assert(drops(views(acc@)[j as int], f@));
                }
                dropped = true;
            }
            j = j + 1;
        }
        if !dropped {
            let mut kept: Vec<TextElement> = Vec::new();
            let mut k: usize = 0;
            while k < acc.len()
                invariant
                    k <= acc@.len(),
                    views(kept@) == remove_displaced(views(acc@).take(k as int), f@),
                decreases acc@.len() - k,
            {
                proof {
                    assert(views(acc@).take(k + 1).drop_last() =~= views(acc@).take(k as int));
                    assert(views(acc@).take(k + 1).last() == acc@[k as int]@);
                }
                if !displaced_exec(&acc[k], f) {
                    let e = acc[k].copy_of();
                    proof {
                        lemma_views_push(kept@, e);
                    }
                    kept.push(e);
                }
                k = k + 1;
            }
            proof {
                assert(views(acc@).take(k as int) =~= views(acc@));
            }
            let e = f.copy_of();
            proof {
                lemma_views_push(kept@, e);
            }
            kept.push(e);
            acc = kept;
        }
        i = i + 1;
    }
    proof {
        assert(views(s@).take(i as int) =~= views(s@));
    }
    acc
}

/// Removes noise, overlapping and duplicate fragments from a page's text
/// elements, returning the survivors in reading order (see
/// `filter_text_spec`).
pub fn filter_overlapping_text(text_elements: Vec<TextElement>, _page_index: usize) -> (r: Vec<
    TextElement,
>)
    ensures
        views(r@) == filter_text_spec(views(text_elements@)),
{
    let clean = drop_noise_exec(&text_elements);
    let sorted = sort_by_pos_exec(&clean);
    dedupe_exec(&sorted)
}

/// Every pair of elements, earlier first, stands in `rel`.
pub open spec fn pairwise(
    s: Seq<TextElementView>,
    rel: spec_fn(TextElementView, TextElementView) -> bool,
) -> bool {
    forall|i: int, j: int| #![trigger s[i], s[j]] 0 <= i < j < s.len() ==> rel(s[i], s[j])
}

/// Two accepted elements, `a` before `b`, that leave each other in place.
pub open spec fn compatible(a: TextElementView, b: TextElementView) -> bool {
    !drops(a, b) && !displaced(a, b)
}

/// Every element of `r` occurs in `s`.
pub open spec fn within(r: Seq<TextElementView>, s: Seq<TextElementView>) -> bool {
    forall|i: int| 0 <= i < r.len() ==> s.contains(#[trigger] r[i])
}

proof fn lemma_drop_noise(s: Seq<TextElementView>)
    ensures
        forall|i: int| 0 <= i < drop_noise(s).len() ==> !is_noise(#[trigger] drop_noise(s)[i]),
        (forall|i: int| 0 <= i < s.len() ==> !is_noise(#[trigger] s[i])) ==> drop_noise(s) == s,
    decreases s.len(),
{
    if s.len() > 0 {
        let d = s.drop_last();
        lemma_drop_noise(d);
        let q = drop_noise(d);
        let r = drop_noise(s);
        assert forall|i: int| 0 <= i < r.len() implies !is_noise(#[trigger] r[i]) by {
            if i < q.len() {
                assert(r[i] == q[i]);
            }
        }
        if forall|i: int| 0 <= i < s.len() ==> !is_noise(#[trigger] s[i]) {
            assert forall|i: int| 0 <= i < d.len() implies !is_noise(#[trigger] d[i]) by {
                assert(d[i] == s[i]);
            }
            assert(!is_noise(s[s.len() - 1]));
            assert(d.push(s.last()) =~= s);
        }
    }
}

proof fn lemma_insert_by_pos(s: Seq<TextElementView>, e: TextElementView)
    ensures
        insert_by_pos(s, e).len() == s.len() + 1,
        forall|i: int|
            0 <= i < insert_by_pos(s, e).len() ==> #[trigger] insert_by_pos(s, e)[i] == e || s.contains(
                insert_by_pos(s, e)[i],
            ),
        pairwise(s, |a: TextElementView, b: TextElementView| pos_le(a, b)) ==> pairwise(
            insert_by_pos(s, e),
            |a: TextElementView, b: TextElementView| pos_le(a, b),
        ),
    decreases s.len(),
{
    let le = |a: TextElementView, b: TextElementView| pos_le(a, b);
    let r = insert_by_pos(s, e);
    if s.len() == 0 {
    } else if pos_le(s.last(), e) {
        assert forall|i: int| 0 <= i < r.len() implies #[trigger] r[i] == e || s.contains(r[i]) by {
            if i < s.len() {
                assert(r[i] == s[i]);
            }
        }
        if pairwise(s, le) {
            assert forall|i: int, j: int| #![trigger r[i], r[j]] 0 <= i < j < r.len() implies le(
                r[i],
                r[j],
            ) by {
                if j == s.len() {
                    if i < s.len() - 1 {
                        assert(le(s[i], s[s.len() - 1]));
                    }
                } else {
                    assert(le(s[i], s[j]));
                }
            }
        }
    } else {
        let d = s.drop_last();
        lemma_insert_by_pos(d, e);
        let q = insert_by_pos(d, e);
        assert forall|i: int| 0 <= i < r.len() implies #[trigger] r[i] == e || s.contains(r[i]) by {
            if i < q.len() {
                assert(r[i] == q[i]);
                if q[i] != e {
                    let k = choose|k: int| 0 <= k < d.len() && d[k] == q[i];
                    assert(s[k] == d[k]);
                }
            } else {
                assert(r[i] == s[s.len() - 1]);
            }
        }
        if pairwise(s, le) {
            assert(pairwise(d, le)) by {
                assert forall|i: int, j: int| #![trigger d[i], d[j]] 0 <= i < j < d.len() implies le(
                    d[i],
                    d[j],
                ) by {
                    assert(le(s[i], s[j]));
                }
            }
            assert forall|i: int, j: int| #![trigger r[i], r[j]] 0 <= i < j < r.len() implies le(
                r[i],
                r[j],
            ) by {
                if j == q.len() {
                    assert(r[j] == s.last());
                    assert(r[i] == q[i]);
                    if q[i] != e {
                        let k = choose|k: int| 0 <= k < d.len() && d[k] == q[i];
                        assert(le(s[k], s[s.len() - 1]));
                    }
                } else {
                    assert(r[i] == q[i] && r[j] == q[j]);
                    assert(le(q[i], q[j]));
                }
            }
        }
    }
}

proof fn lemma_sort_by_pos(s: Seq<TextElementView>)
    ensures
        sort_by_pos(s).len() == s.len(),
        within(sort_by_pos(s), s),
        pairwise(sort_by_pos(s), |a: TextElementView, b: TextElementView| pos_le(a, b)),
        pairwise(s, |a: TextElementView, b: TextElementView| pos_le(a, b)) ==> sort_by_pos(s) == s,
    decreases s.len(),
{
    let le = |a: TextElementView, b: TextElementView| pos_le(a, b);
    if s.len() > 0 {
        let d = s.drop_last();
        lemma_sort_by_pos(d);
        let q = sort_by_pos(d);
        lemma_insert_by_pos(q, s.last());
        let r = sort_by_pos(s);
        assert forall|i: int| 0 <= i < r.len() implies s.contains(#[trigger] r[i]) by {
            if r[i] == s.last() {
                assert(s[s.len() - 1] == r[i]);
            } else {
                let k = choose|k: int| 0 <= k < q.len() && q[k] == r[i];
                let m = choose|m: int| 0 <= m < d.len() && d[m] == q[k];
                assert(s[m] == d[m]);
            }
        }
        if pairwise(s, le) {
            assert(pairwise(d, le)) by {
                assert forall|i: int, j: int| #![trigger d[i], d[j]] 0 <= i < j < d.len() implies le(
                    d[i],
                    d[j],
                ) by {
                    assert(le(s[i], s[j]));
                }
            }
            if d.len() > 0 {
                assert(le(s[d.len() - 1], s[s.len() - 1]));
                assert(d.last() == s[d.len() - 1]);
            }
            assert(d.push(s.last()) =~= s);
        }
    }
}

proof fn lemma_remove_displaced(
    acc: Seq<TextElementView>,
    f: TextElementView,
    rel: spec_fn(TextElementView, TextElementView) -> bool,
)
    ensures
        within(remove_displaced(acc, f), acc),
        forall|i: int|
            0 <= i < remove_displaced(acc, f).len() ==> !displaced(
                #[trigger] remove_displaced(acc, f)[i],
                f,
            ),
        pairwise(acc, rel) ==> pairwise(remove_displaced(acc, f), rel),
        (forall|i: int| 0 <= i < acc.len() ==> !displaced(#[trigger] acc[i], f)) ==> remove_displaced(
            acc,
            f,
        ) == acc,
    decreases acc.len(),
{
    if acc.len() > 0 {
        let d = acc.drop_last();
        lemma_remove_displaced(d, f, rel);
        let q = remove_displaced(d, f);
        let r = remove_displaced(acc, f);
        assert forall|i: int| 0 <= i < r.len() implies acc.contains(#[trigger] r[i]) by {
            if i < q.len() {
                let k = choose|k: int| 0 <= k < d.len() && d[k] == q[i];
                assert(acc[k] == d[k]);
            } else {
                assert(acc[acc.len() - 1] == r[i]);
            }
        }
        if pairwise(acc, rel) {
            assert(pairwise(d, rel)) by {
                assert forall|i: int, j: int| #![trigger d[i], d[j]] 0 <= i < j < d.len() implies rel(
                    d[i],
                    d[j],
                ) by {
                    assert(rel(acc[i], acc[j]));
                }
            }
            assert forall|i: int, j: int| #![trigger r[i], r[j]] 0 <= i < j < r.len() implies rel(
                r[i],
                r[j],
            ) by {
                if j == q.len() {
                    let k = choose|k: int| 0 <= k < d.len() && d[k] == q[i];
                    assert(rel(acc[k], acc[acc.len() - 1]));
                } else {
                    assert(rel(q[i], q[j]));
                }
            }
        }
        if forall|i: int| 0 <= i < acc.len() ==> !displaced(#[trigger] acc[i], f) {
            assert forall|i: int| 0 <= i < d.len() implies !displaced(#[trigger] d[i], f) by {
                assert(d[i] == acc[i]);
            }
            assert(!displaced(acc[acc.len() - 1], f));
            assert(d.push(acc.last()) =~= acc);
        }
    }
}

proof fn lemma_dedupe(s: Seq<TextElementView>)
    ensures
        within(dedupe(s), s),
        pairwise(dedupe(s), |a: TextElementView, b: TextElementView| compatible(a, b)),
        pairwise(s, |a: TextElementView, b: TextElementView| pos_le(a, b)) ==> pairwise(
            dedupe(s),
            |a: TextElementView, b: TextElementView| pos_le(a, b),
        ),
        pairwise(s, |a: TextElementView, b: TextElementView| compatible(a, b)) ==> dedupe(s) == s,
    decreases s.len(),
{
    let le = |a: TextElementView, b: TextElementView| pos_le(a, b);
    let ok = |a: TextElementView, b: TextElementView| compatible(a, b);
    if s.len() > 0 {
        let d = s.drop_last();
        let f = s.last();
        lemma_dedupe(d);
        let q = dedupe(d);
        let r = dedupe(s);
        assert(pairwise(s, le) ==> pairwise(d, le)) by {
            if pairwise(s, le) {
                assert forall|i: int, j: int| #![trigger d[i], d[j]] 0 <= i < j < d.len() implies le(
                    d[i],
                    d[j],
                ) by {
                    assert(le(s[i], s[j]));
                }
            }
        }
        assert(pairwise(s, ok) ==> pairwise(d, ok)) by {
            if pairwise(s, ok) {
                assert forall|i: int, j: int| #![trigger d[i], d[j]] 0 <= i < j < d.len() implies ok(
                    d[i],
                    d[j],
                ) by {
                    assert(ok(s[i], s[j]));
                }
            }
        }
        // every element of q is an earlier element of s
        assert forall|i: int| #![trigger q[i]] 0 <= i < q.len() implies exists|k: int|
            0 <= k < s.len() - 1 && #[trigger] s[k] == q[i] by {
            let k = choose|k: int| 0 <= k < d.len() && d[k] == q[i];
            assert(s[k] == d[k]);
        }
        if dropped_by_any(q, f) {
            assert forall|i: int| 0 <= i < r.len() implies s.contains(#[trigger] r[i]) by {
                let k = choose|k: int| 0 <= k < s.len() - 1 && s[k] == q[i];
            }
        } else {
            lemma_remove_displaced(q, f, ok);
            lemma_remove_displaced(q, f, le);
            let m = remove_displaced(q, f);
            assert forall|i: int| 0 <= i < r.len() implies s.contains(#[trigger] r[i]) by {
                if i < m.len() {
                    let k = choose|k: int| 0 <= k < q.len() && q[k] == m[i];
                    let k2 = choose|k2: int| 0 <= k2 < s.len() - 1 && s[k2] == q[k];
                } else {
                    assert(s[s.len() - 1] == r[i]);
                }
            }
            assert forall|i: int, j: int| #![trigger r[i], r[j]] 0 <= i < j < r.len() implies ok(
                r[i],
                r[j],
            ) by {
                if j == m.len() {
                    let k = choose|k: int| 0 <= k < q.len() && q[k] == m[i];
                    assert(!drops(q[k], f));
                    assert(!displaced(m[i], f));
                } else {
                    assert(ok(m[i], m[j]));
                }
            }
            if pairwise(s, le) {
                assert forall|i: int, j: int| #![trigger r[i], r[j]] 0 <= i < j < r.len() implies le(
                    r[i],
                    r[j],
                ) by {
                    if j == m.len() {
                        let k = choose|k: int| 0 <= k < q.len() && q[k] == m[i];
                        let k2 = choose|k2: int| 0 <= k2 < s.len() - 1 && s[k2] == q[k];
                        assert(le(s[k2], s[s.len() - 1]));
                    } else {
                        assert(le(m[i], m[j]));
                    }
                }
            }
        }
        if pairwise(s, ok) {
            assert(q == d);
            assert forall|j: int| 0 <= j < d.len() implies !drops(#[trigger] d[j], f) && !displaced(
                d[j],
                f,
            ) by {
                assert(ok(s[j], s[s.len() - 1]));
                assert(d[j] == s[j]);
            }
            lemma_remove_displaced(d, f, ok);
            assert(d.push(f) =~= s);
        }
    }
}

/// Filtering is idempotent: running the filter again on its own output
/// returns that output unchanged.
pub proof fn lemma_filter_idempotent(s: Seq<TextElementView>)
    ensures
        filter_text_spec(filter_text_spec(s)) == filter_text_spec(s),
{
    let le = |a: TextElementView, b: TextElementView| pos_le(a, b);
    let n = drop_noise(s);
    let t = sort_by_pos(n);
    let f = dedupe(t);
    lemma_drop_noise(s);
    lemma_sort_by_pos(n);
    lemma_dedupe(t);
    assert forall|i: int| 0 <= i < f.len() implies !is_noise(#[trigger] f[i]) by {
        let k = choose|k: int| 0 <= k < t.len() && t[k] == f[i];
        let m = choose|m: int| 0 <= m < n.len() && n[m] == t[k];
    }
    lemma_drop_noise(f);
    lemma_sort_by_pos(f);
    lemma_dedupe(f);
}

/// The filter's output holds no noise, is in reading order, and no two of
/// its fragments would rule each other out.
pub proof fn lemma_filter_output_clean(s: Seq<TextElementView>)
    ensures
        forall|i: int|
            0 <= i < filter_text_spec(s).len() ==> !is_noise(#[trigger] filter_text_spec(s)[i]),
        pairwise(filter_text_spec(s), |a: TextElementView, b: TextElementView| pos_le(a, b)),
        pairwise(filter_text_spec(s), |a: TextElementView, b: TextElementView| compatible(a, b)),
{
    let n = drop_noise(s);
    let t = sort_by_pos(n);
    let f = dedupe(t);
    lemma_drop_noise(s);
    lemma_sort_by_pos(n);
    lemma_dedupe(t);
    assert forall|i: int| 0 <= i < f.len() implies !is_noise(#[trigger] f[i]) by {
        let k = choose|k: int| 0 <= k < t.len() && t[k] == f[i];
        let m = choose|m: int| 0 <= m < n.len() && n[m] == t[k];
    }
}

} // verus!
