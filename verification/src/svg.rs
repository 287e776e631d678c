use vstd::prelude::*;

verus! {

/// The one-byte white space that separates words in SVG text: space, tab, line feed,
/// vertical tab, form feed and carriage return.
pub open spec fn is_space(b: u8) -> bool {
    b == 0x20 || (0x09 <= b && b <= 0x0D)
}

/// The two-byte white space in UTF-8: next line (U+0085) and no-break space (U+00A0).
pub open spec fn is_space2(a: u8, b: u8) -> bool {
    a == 0xC2 && (b == 0x85 || b == 0xA0)
}

/// The three-byte white space in UTF-8: U+1680, U+2000 to U+200A, U+2028, U+2029,
/// U+202F, U+205F and U+3000.
pub open spec fn is_space3(a: u8, b: u8, c: u8) -> bool {
    ||| a == 0xE1 && b == 0x9A && c == 0x80
    ||| a == 0xE2 && b == 0x80 && ((0x80 <= c && c <= 0x8A) || c == 0xA8 || c == 0xA9 || c == 0xAF)
    ||| a == 0xE2 && b == 0x81 && c == 0x9F
    ||| a == 0xE3 && b == 0x80 && c == 0x80
}

/// How many bytes the white space character that starts at `from` takes, within
/// `from..hi`; 0 when no white space starts there.
pub open spec fn space_at(text: Seq<u8>, from: int, hi: int) -> int {
    if from < hi && is_space(text[from]) {
        1
    } else if from + 2 <= hi && is_space2(text[from], text[from + 1]) {
        2
    } else if from + 3 <= hi && is_space3(text[from], text[from + 1], text[from + 2]) {
        3
    } else {
        0
    }
}

/// How many bytes the white space character that ends at `hi` takes, within `lo..hi`;
/// 0 when no white space ends there.
pub open spec fn space_before(text: Seq<u8>, lo: int, hi: int) -> int {
    if hi > lo && is_space(text[hi - 1]) {
        1
    } else if hi - 2 >= lo && is_space2(text[hi - 2], text[hi - 1]) {
        2
    } else if hi - 3 >= lo && is_space3(text[hi - 3], text[hi - 2], text[hi - 1]) {
        3
    } else {
        0
    }
}

fn space2(a: u8, b: u8) -> (found: bool)
    ensures
        found == is_space2(a, b),
{
    a == 0xC2 && (b == 0x85 || b == 0xA0)
}

fn space3(a: u8, b: u8, c: u8) -> (found: bool)
    ensures
        found == is_space3(a, b, c),
{
    (a == 0xE1 && b == 0x9A && c == 0x80)
        || (a == 0xE2 && b == 0x80 && ((0x80 <= c && c <= 0x8A) || c == 0xA8 || c == 0xA9 || c == 0xAF))
        || (a == 0xE2 && b == 0x81 && c == 0x9F)
        || (a == 0xE3 && b == 0x80 && c == 0x80)
}

fn space_width_at(text: &[u8], from: usize, hi: usize) -> (width: usize)
    requires
        from <= hi <= text@.len(),
    ensures
        width == space_at(text@, from as int, hi as int),
{
    if from < hi && (text[from] == 0x20 || (0x09 <= text[from] && text[from] <= 0x0D)) {
        1
    } else if hi - from >= 2 && space2(text[from], text[from + 1]) {
        2
    } else if hi - from >= 3 && space3(text[from], text[from + 1], text[from + 2]) {
        3
    } else {
        0
    }
}

fn space_width_before(text: &[u8], lo: usize, hi: usize) -> (width: usize)
    requires
        lo <= hi <= text@.len(),
    ensures
        width == space_before(text@, lo as int, hi as int),
{
    if hi > lo && (text[hi - 1] == 0x20 || (0x09 <= text[hi - 1] && text[hi - 1] <= 0x0D)) {
        1
    } else if hi - lo >= 2 && space2(text[hi - 2], text[hi - 1]) {
        2
    } else if hi - lo >= 3 && space3(text[hi - 3], text[hi - 2], text[hi - 1]) {
        3
    } else {
        0
    }
}

/// The first position at or after `from` that holds `b`.
pub open spec fn find_from(text: Seq<u8>, from: int, b: u8) -> Option<int>
    decreases text.len() - from,
{
    if from < 0 || from >= text.len() {
        None
    } else if text[from] == b {
        Some(from)
    } else {
        find_from(text, from + 1, b)
    }
}

/// The first position at or after `from` where `pattern` starts.
pub open spec fn find_pattern(text: Seq<u8>, from: int, pattern: Seq<u8>) -> Option<int>
    decreases text.len() + 1 - from,
{
    if from < 0 || from + pattern.len() > text.len() {
        None
    } else if text.subrange(from, from + pattern.len()) == pattern {
        Some(from)
    } else {
        find_pattern(text, from + 1, pattern)
    }
}

/// The bytes `<!--`, which open a comment.
pub open spec fn comment_open() -> Seq<u8> {
    seq![0x3Cu8, 0x21u8, 0x2Du8, 0x2Du8]
}

/// The bytes `-->`, which close a comment.
pub open spec fn comment_close() -> Seq<u8> {
    seq![0x2Du8, 0x2Du8, 0x3Eu8]
}

/// The spans of the tags of `text` from position `pos` on: the text between each `<`
/// and the next `>`, comments skipped; an unclosed tag or comment ends the list.
pub open spec fn tag_spans(text: Seq<u8>, pos: int) -> Seq<(usize, usize)>
    decreases text.len() + 1 - pos,
{
    if pos < 0 {
        Seq::empty()
    } else {
        match find_from(text, pos, 0x3Cu8) {
            None => Seq::empty(),
            Some(start) => if start + 4 <= text.len() && text.subrange(start, start + 4) == comment_open() {
                match find_pattern(text, start + 4, comment_close()) {
                    None => Seq::empty(),
                    Some(close) => if pos < close + 3 <= text.len() { tag_spans(text, close + 3) } else { Seq::empty() },
                }
            } else {
                match find_from(text, start, 0x3Eu8) {
                    None => Seq::empty(),
                    Some(end) => if pos < end + 1 <= text.len() {
                        seq![((start + 1) as usize, end as usize)] + tag_spans(text, end + 1)
                    } else {
                        Seq::empty()
                    },
                }
            },
        }
    }
}

pub proof fn lemma_find_from(text: Seq<u8>, from: int, b: u8)
    requires
        0 <= from,
    ensures
        match find_from(text, from, b) {
            Some(i) => from <= i < text.len() && text[i] == b && forall|j: int| from <= j < i ==> text[j] != b,
            None => forall|j: int| from <= j < text.len() ==> text[j] != b,
        },
    decreases text.len() - from,
{
    if from < text.len() && text[from] != b {
        lemma_find_from(text, from + 1, b);
    }
}

/// The first position at or after `from` that holds `b`.
pub fn search(text: &[u8], from: usize, b: u8) -> (found: Option<usize>)
    ensures
        found == match find_from(text@, from as int, b) { Some(i) => Some(i as usize), None => None::<usize> },
{
    let mut i = from;
    while i < text.len()
        invariant
            from <= i,
            find_from(text@, from as int, b) == find_from(text@, i as int, b),
        decreases text@.len() - i,
    {
        if text[i] == b {
            return Some(i);
        }
        i = i + 1;
    }
    None
}

/// Whether `pattern` stands in `text` at `at`.
fn starts_with_at(text: &[u8], at: usize, pattern: &[u8]) -> (found: bool)
    ensures
        found == (at + pattern@.len() <= text@.len() && text@.subrange(at as int, at + pattern@.len()) == pattern@),
{
    if at > text.len() || pattern.len() > text.len() - at {
        return false;
    }
    let n = text.len();
    let mut k: usize = 0;
    while k < pattern.len()
        invariant
            k <= pattern@.len(),
            n == text@.len(),
            at + pattern@.len() <= n,
            forall|j: int| 0 <= j < k ==> text@[at + j] == pattern@[j],
        decreases pattern@.len() - k,
    {
        if text[at + k] != pattern[k] {
            assert(text@.subrange(at as int, at + pattern@.len())[k as int] != pattern@[k as int]);
            return false;
        }
        k = k + 1;
    }
    assert(text@.subrange(at as int, at + pattern@.len()) =~= pattern@);
    true
}

/// The first position at or after `from` where `pattern` starts.
fn search_pattern(text: &[u8], from: usize, pattern: &[u8]) -> (found: Option<usize>)
    ensures
        found == match find_pattern(text@, from as int, pattern@) { Some(i) => Some(i as usize), None => None::<usize> },
{
    let mut i = from;
    while i <= text.len()
        invariant
            from <= i,
            find_pattern(text@, from as int, pattern@) == find_pattern(text@, i as int, pattern@),
        decreases text@.len() + 1 - i,
    {
        if starts_with_at(text, i, pattern) {
            return Some(i);
        }
        if i == text.len() || pattern.len() > text.len() - i {
            proof {
                if pattern@.len() == 0 {
                    assert(text@.subrange(i as int, i as int) =~= pattern@);
                }
            }
            return None;
        }
        i = i + 1;
    }
    None
}

/// The spans of the tags of `text`: the text between each `<` and the next `>`,
/// comments skipped. An unclosed tag or comment ends the list.
pub fn tags(text: &[u8]) -> (spans: Vec<(usize, usize)>)
    ensures
        spans@ == tag_spans(text@, 0),
{
    let open = [0x3Cu8, 0x21u8, 0x2Du8, 0x2Du8];
    let close = [0x2Du8, 0x2Du8, 0x3Eu8];
    assert(open@ =~= comment_open());
    assert(close@ =~= comment_close());
    let n = text.len();
    let mut spans: Vec<(usize, usize)> = Vec::new();
    let mut pos: usize = 0;
    loop
        invariant
            n == text@.len(),
            pos <= text@.len(),
            open@ == comment_open(),
            close@ == comment_close(),
            spans@ + tag_spans(text@, pos as int) == tag_spans(text@, 0),
        decreases text@.len() + 1 - pos,
    {
        let start = match search(text, pos, 0x3Cu8) {
            None => {
                assert(spans@ + tag_spans(text@, pos as int) =~= spans@);
                return spans;
            },
            Some(start) => start,
        };
        proof {
            lemma_find_from(text@, pos as int, 0x3Cu8);
        }
        if starts_with_at(text, start, open.as_slice()) {
            match search_pattern(text, start + 4, close.as_slice()) {
                None => {
                    assert(spans@ + tag_spans(text@, pos as int) =~= spans@);
                    return spans;
                },
                Some(end) => {
                    proof {
                        lemma_find_pattern(text@, start + 4, comment_close());
                    }
                    pos = end + 3;
                },
            }
        } else {
            match search(text, start, 0x3Eu8) {
                None => {
                    assert(spans@ + tag_spans(text@, pos as int) =~= spans@);
                    return spans;
                },
                Some(end) => {
                    proof {
                        lemma_find_from(text@, start as int, 0x3Eu8);
                    }
                    let ghost rest = tag_spans(text@, end + 1);
                    spans.push((start + 1, end));
                    proof {
                        assert(tag_spans(text@, pos as int) == seq![((start + 1) as usize, end as usize)] + rest);
                        assert(spans@ + rest =~= tag_spans(text@, 0));
                    }
                    pos = end + 1;
                },
            }
        }
    }
}

proof fn lemma_find_pattern(text: Seq<u8>, from: int, pattern: Seq<u8>)
    requires
        0 <= from,
    ensures
        match find_pattern(text, from, pattern) {
            Some(i) => from <= i && i + pattern.len() <= text.len(),
            None => true,
        },
    decreases text.len() + 1 - from,
{
    if from + pattern.len() <= text.len() && text.subrange(from, from + pattern.len()) != pattern {
        lemma_find_pattern(text, from + 1, pattern);
    }
}

} // verus!

verus! {

/// The end of `text[lo..hi]` once white space at its end is trimmed.
pub open spec fn trim_end(text: Seq<u8>, lo: int, hi: int) -> int
    decreases hi - lo,
{
    let w = space_before(text, lo, hi);
    if w > 0 { trim_end(text, lo, hi - w) } else { hi }
}

/// The start of the word that ends at `hi`, not before `lo`.
pub open spec fn word_start(text: Seq<u8>, lo: int, hi: int) -> int
    decreases hi - lo,
{
    if hi > lo && space_before(text, lo, hi) == 0 { word_start(text, lo, hi - 1) } else { hi }
}

/// The first position at or after `from` and before `hi` that holds no white space, or
/// `hi`.
pub open spec fn trim_start(text: Seq<u8>, from: int, hi: int) -> int
    decreases hi - from,
{
    let w = space_at(text, from, hi);
    if w > 0 { trim_start(text, from + w, hi) } else { from }
}

/// The value of the attribute `name` in `tag`, looked for from position `pos` on: for
/// each `=`, the key is the last word before it and the value the quoted text after it;
/// a value that is not quoted, or not closed, ends the search.
pub open spec fn attribute_from(tag: Seq<u8>, pos: int, name: Seq<u8>) -> Option<(usize, usize)>
    decreases tag.len() + 1 - pos,
{
    if pos < 0 {
        None
    } else {
        match find_from(tag, pos, 0x3Du8) {
            None => None,
            Some(eq) => {
                let key_end = trim_end(tag, pos, eq);
                let key = tag.subrange(word_start(tag, pos, key_end), key_end);
                let v = trim_start(tag, eq + 1, tag.len() as int);
                if v >= tag.len() || (tag[v] != 0x22u8 && tag[v] != 0x27u8) {
                    None
                } else {
                    match find_from(tag, v + 1, tag[v]) {
                        None => None,
                        Some(close) => if key == name {
                            Some(((v + 1) as usize, close as usize))
                        } else if pos < close + 1 <= tag.len() {
                            attribute_from(tag, close + 1, name)
                        } else {
                            None
                        },
                    }
                }
            },
        }
    }
}

proof fn lemma_trim_end(text: Seq<u8>, lo: int, hi: int)
    requires
        lo <= hi,
    ensures
        lo <= trim_end(text, lo, hi) <= hi,
    decreases hi - lo,
{
    let w = space_before(text, lo, hi);
    if w > 0 {
        lemma_trim_end(text, lo, hi - w);
    }
}

proof fn lemma_word_start(text: Seq<u8>, lo: int, hi: int)
    requires
        lo <= hi,
    ensures
        lo <= word_start(text, lo, hi) <= hi,
    decreases hi - lo,
{
    if hi > lo && space_before(text, lo, hi) == 0 {
        lemma_word_start(text, lo, hi - 1);
    }
}

proof fn lemma_trim_start(text: Seq<u8>, from: int, hi: int)
    requires
        from <= hi,
    ensures
        from <= trim_start(text, from, hi) <= hi,
    decreases hi - from,
{
    let w = space_at(text, from, hi);
    if w > 0 {
        lemma_trim_start(text, from + w, hi);
    }
}

fn trim_end_at(text: &[u8], lo: usize, hi: usize) -> (end: usize)
    requires
        lo <= hi <= text@.len(),
    ensures
        end == trim_end(text@, lo as int, hi as int),
{
    let mut i = hi;
    let mut w = space_width_before(text, lo, i);
    while w > 0
        invariant
            lo <= i <= hi <= text@.len(),
            w == space_before(text@, lo as int, i as int),
            trim_end(text@, lo as int, hi as int) == trim_end(text@, lo as int, i as int),
        decreases i,
    {
        i = i - w;
        w = space_width_before(text, lo, i);
    }
    i
}

fn word_start_at(text: &[u8], lo: usize, hi: usize) -> (start: usize)
    requires
        lo <= hi <= text@.len(),
    ensures
        start == word_start(text@, lo as int, hi as int),
{
    let mut i = hi;
    while i > lo && space_width_before(text, lo, i) == 0
        invariant
            lo <= i <= hi <= text@.len(),
            word_start(text@, lo as int, hi as int) == word_start(text@, lo as int, i as int),
        decreases i,
    {
        i = i - 1;
    }
    i
}

fn trim_start_at(text: &[u8], from: usize, hi: usize) -> (start: usize)
    requires
        from <= hi <= text@.len(),
    ensures
        start == trim_start(text@, from as int, hi as int),
{
    let mut i = from;
    let mut w = space_width_at(text, i, hi);
    while w > 0
        invariant
            from <= i <= hi <= text@.len(),
            w == space_at(text@, i as int, hi as int),
            trim_start(text@, from as int, hi as int) == trim_start(text@, i as int, hi as int),
        decreases hi - i,
    {
        i = i + w;
        w = space_width_at(text, i, hi);
    }
    i
}

/// Whether `text[lo..hi]` equals `word`.
pub fn equal_at(text: &[u8], lo: usize, hi: usize, word: &[u8]) -> (equal: bool)
    requires
        lo <= hi <= text@.len(),
    ensures
        equal == (text@.subrange(lo as int, hi as int) == word@),
{
    if hi - lo != word.len() {
        assert(text@.subrange(lo as int, hi as int).len() != word@.len());
        return false;
    }
    let mut k: usize = 0;
    while k < word.len()
        invariant
            k <= word@.len() == hi - lo,
            lo <= hi <= text@.len(),
            forall|j: int| 0 <= j < k ==> text@[lo + j] == word@[j],
        decreases word@.len() - k,
    {
        if text[lo + k] != word[k] {
            assert(text@.subrange(lo as int, hi as int)[k as int] != word@[k as int]);
            return false;
        }
        k = k + 1;
    }
    assert(text@.subrange(lo as int, hi as int) =~= word@);
    true
}

/// The span of the value of the attribute `name` in `tag`: the quoted text after the
/// first `=` whose key, the last word before it, is `name`. The search stops at a value
/// that is not quoted or not closed.
pub fn attribute(tag: &[u8], name: &[u8]) -> (value: Option<(usize, usize)>)
    ensures
        value == attribute_from(tag@, 0, name@),
{
    let n = tag.len();
    let mut pos: usize = 0;
    loop
        invariant
            n == tag@.len(),
            pos <= n,
            attribute_from(tag@, pos as int, name@) == attribute_from(tag@, 0, name@),
        decreases n + 1 - pos,
    {
        let eq = match search(tag, pos, 0x3Du8) {
            None => return None,
            Some(eq) => eq,
        };
        proof {
            lemma_find_from(tag@, pos as int, 0x3Du8);
            lemma_trim_end(tag@, pos as int, eq as int);
            lemma_word_start(tag@, pos as int, trim_end(tag@, pos as int, eq as int));
            lemma_trim_start(tag@, eq + 1, n as int);
        }
        let key_end = trim_end_at(tag, pos, eq);
        let key_start = word_start_at(tag, pos, key_end);
        let v = trim_start_at(tag, eq + 1, n);
        if v >= n || (tag[v] != 0x22u8 && tag[v] != 0x27u8) {
            return None;
        }
        let close = match search(tag, v + 1, tag[v]) {
            None => return None,
            Some(close) => close,
        };
        proof {
            lemma_find_from(tag@, v + 1, tag@[v as int]);
        }
        if equal_at(tag, key_start, key_end, name) {
            return Some((v + 1, close));
        }
        pos = close + 1;
    }
}

} // verus!

verus! {

/// The first position in `from..to` that holds `b`.
pub open spec fn find_in(text: Seq<u8>, from: int, to: int, b: u8) -> Option<int>
    decreases to - from,
{
    if from < 0 || from >= to || from >= text.len() {
        None
    } else if text[from] == b {
        Some(from)
    } else {
        find_in(text, from + 1, to, b)
    }
}

/// The span of `from..to` without white space at either end.
pub open spec fn trimmed(text: Seq<u8>, from: int, to: int) -> (usize, usize) {
    let start = trim_start(text, from, to);
    (start as usize, trim_end(text, start, to) as usize)
}

/// The value of the declaration `name` in the style text `p..end` of `tag`, looked for
/// from the declaration at `p` on: declarations are separated by `;`, and each is a key
/// and a value separated by its first `:`.
pub open spec fn style_value(tag: Seq<u8>, p: int, end: int, name: Seq<u8>) -> Option<(usize, usize)>
    decreases end + 1 - p,
{
    if p < 0 || p > end {
        None
    } else {
        let d = match find_in(tag, p, end, 0x3Bu8) { Some(i) => i, None => end };
        let found = match find_in(tag, p, d, 0x3Au8) {
            None => None,
            Some(colon) => {
                let (ks, ke) = trimmed(tag, p, colon);
                if tag.subrange(ks as int, ke as int) == name { Some(((colon + 1) as usize, d as usize)) } else { None }
            },
        };
        if found is Some {
            found
        } else if p <= d < end {
            style_value(tag, d + 1, end, name)
        } else {
            None
        }
    }
}

/// The bytes `style`.
pub open spec fn style_name() -> Seq<u8> {
    seq![0x73u8, 0x74u8, 0x79u8, 0x6Cu8, 0x65u8]
}

/// The value of the property `name` of `tag`: its declaration in the `style`
/// attribute, else the attribute `name`, without white space at either end.
pub open spec fn property_value(tag: Seq<u8>, name: Seq<u8>) -> Option<(usize, usize)> {
    let from_style = match attribute_from(tag, 0, style_name()) {
        Some(style) => style_value(tag, style.0 as int, style.1 as int, name),
        None => None,
    };
    let raw = if from_style is Some { from_style } else { attribute_from(tag, 0, name) };
    match raw {
        Some(span) => Some(trimmed(tag, span.0 as int, span.1 as int)),
        None => None,
    }
}

pub proof fn lemma_find_in(text: Seq<u8>, from: int, to: int, b: u8)
    requires
        0 <= from,
    ensures
        match find_in(text, from, to, b) {
            Some(i) => from <= i < to && i < text.len() && text[i] == b,
            None => true,
        },
    decreases to - from,
{
    if from < to && from < text.len() && text[from] != b {
        lemma_find_in(text, from + 1, to, b);
    }
}

pub fn search_in(text: &[u8], from: usize, to: usize, b: u8) -> (found: Option<usize>)
    requires
        to <= text@.len(),
    ensures
        found == match find_in(text@, from as int, to as int, b) { Some(i) => Some(i as usize), None => None::<usize> },
{
    let mut i = from;
    while i < to
        invariant
            from <= i,
            to <= text@.len(),
            find_in(text@, from as int, to as int, b) == find_in(text@, i as int, to as int, b),
        decreases to - i,
    {
        if text[i] == b {
            return Some(i);
        }
        i = i + 1;
    }
    None
}

pub fn trim_span(text: &[u8], from: usize, to: usize) -> (span: (usize, usize))
    requires
        from <= to <= text@.len(),
    ensures
        span == trimmed(text@, from as int, to as int),
        from <= span.0 <= span.1 <= to,
{
    proof {
        lemma_trim_start(text@, from as int, to as int);
    }
    let start = trim_start_at(text, from, to);
    proof {
        lemma_trim_end(text@, start as int, to as int);
    }
    (start, trim_end_at(text, start, to))
}

/// The value of the declaration `name` in the style text `from..to` of `tag`.
fn style_declaration(tag: &[u8], from: usize, to: usize, name: &[u8]) -> (value: Option<(usize, usize)>)
    requires
        from <= to <= tag@.len(),
    ensures
        value == style_value(tag@, from as int, to as int, name@),
{
    let mut p = from;
    loop
        invariant
            from <= p <= to <= tag@.len(),
            style_value(tag@, p as int, to as int, name@) == style_value(tag@, from as int, to as int, name@),
        decreases to + 1 - p,
    {
        proof {
            lemma_find_in(tag@, p as int, to as int, 0x3Bu8);
        }
        let d = match search_in(tag, p, to, 0x3Bu8) {
            Some(i) => i,
            None => to,
        };
        proof {
            lemma_find_in(tag@, p as int, d as int, 0x3Au8);
        }
        match search_in(tag, p, d, 0x3Au8) {
            Some(colon) => {
                let (ks, ke) = trim_span(tag, p, colon);
                if equal_at(tag, ks, ke, name) {
                    return Some((colon + 1, d));
                }
            },
            None => {},
        }
        if d < to {
            p = d + 1;
        } else {
            return None;
        }
    }
}

/// The span of the property `name` of `tag`: its declaration in the `style` attribute,
/// else the attribute `name`, without white space at either end.
pub fn property(tag: &[u8], name: &[u8]) -> (value: Option<(usize, usize)>)
    ensures
        value == property_value(tag@, name@),
{
    let style = [0x73u8, 0x74u8, 0x79u8, 0x6Cu8, 0x65u8];
    assert(style@ =~= style_name());
    let n = tag.len();
    let from_style = match attribute(tag, style.as_slice()) {
        Some((s, e)) => {
            proof {
                lemma_attribute_span(tag@, 0, style_name());
            }
            style_declaration(tag, s, e, name)
        },
        None => None,
    };
    let raw = match from_style {
        Some(span) => Some(span),
        None => attribute(tag, name),
    };
    match raw {
        Some((s, e)) => {
            proof {
                lemma_attribute_span(tag@, 0, name@);
                if from_style is Some {
                    let style_span = attribute_from(tag@, 0, style_name()).unwrap();
                    lemma_style_span(tag@, style_span.0 as int, style_span.1 as int, name@);
                }
            }
            Some(trim_span(tag, s, e))
        },
        None => None,
    }
}

/// An attribute's value lies within its tag.
proof fn lemma_attribute_span(tag: Seq<u8>, pos: int, name: Seq<u8>)
    requires
        0 <= pos,
        tag.len() <= usize::MAX,
    ensures
        match attribute_from(tag, pos, name) {
            Some(span) => span.0 <= span.1 <= tag.len(),
            None => true,
        },
    decreases tag.len() + 1 - pos,
{
    lemma_find_from(tag, pos, 0x3Du8);
    match find_from(tag, pos, 0x3Du8) {
        None => {},
        Some(eq) => {
            lemma_trim_start(tag, eq + 1, tag.len() as int);
            let v = trim_start(tag, eq + 1, tag.len() as int);
            if v < tag.len() {
                lemma_find_from(tag, v + 1, tag[v]);
                match find_from(tag, v + 1, tag[v]) {
                    None => {},
                    Some(close) => {
                        if pos < close + 1 <= tag.len() {
                            lemma_attribute_span(tag, close + 1, name);
                        }
                    },
                }
            }
        },
    }
}

/// A declaration's value lies within the style text.
proof fn lemma_style_span(tag: Seq<u8>, p: int, end: int, name: Seq<u8>)
    requires
        0 <= p,
        end <= tag.len() <= usize::MAX,
    ensures
        match style_value(tag, p, end, name) {
            Some(span) => span.0 <= span.1 <= end,
            None => true,
        },
    decreases end + 1 - p,
{
    if p <= end {
        lemma_find_in(tag, p, end, 0x3Bu8);
        let d = match find_in(tag, p, end, 0x3Bu8) { Some(i) => i, None => end };
        lemma_find_in(tag, p, d, 0x3Au8);
        if p <= d < end {
            lemma_style_span(tag, d + 1, end, name);
        }
    }
}

} // verus!

verus! {

/// The first position at or after `from` that is not a `/`.
pub open spec fn skip_slashes(tag: Seq<u8>, from: int) -> int
    decreases tag.len() - from,
{
    if 0 <= from < tag.len() && tag[from] == 0x2Fu8 { skip_slashes(tag, from + 1) } else { from }
}

/// The end of the word from `from` on: the first white space or `/`, or the end.
pub open spec fn word_end(tag: Seq<u8>, from: int) -> int
    decreases tag.len() - from,
{
    if 0 <= from < tag.len() && space_at(tag, from, tag.len() as int) == 0 && tag[from] != 0x2Fu8 {
        word_end(tag, from + 1)
    } else {
        from
    }
}

/// The span of the name of a tag: the text before its first white space or `/`, after
/// the leading `/` of a closing tag when `closing` says to skip it.
pub open spec fn name_span(tag: Seq<u8>, closing: bool) -> (usize, usize) {
    let start = if closing { skip_slashes(tag, 0) } else { 0 };
    (start as usize, word_end(tag, start) as usize)
}

/// The span of the name of a tag: the text before its first white space or `/`; with
/// `closing`, the leading `/` characters are skipped first.
pub fn tag_name(tag: &[u8], closing: bool) -> (span: (usize, usize))
    ensures
        span == name_span(tag@, closing),
        span.0 <= span.1 <= tag@.len(),
{
    let mut start: usize = 0;
    if closing {
        while start < tag.len() && tag[start] == 0x2Fu8
            invariant
                start <= tag@.len(),
                skip_slashes(tag@, 0) == skip_slashes(tag@, start as int),
            decreases tag@.len() - start,
        {
            start = start + 1;
        }
    }
    let mut end = start;
    while end < tag.len() && space_width_at(tag, end, tag.len()) == 0 && tag[end] != 0x2Fu8
        invariant
            start <= end <= tag@.len(),
            word_end(tag@, start as int) == word_end(tag@, end as int),
        decreases tag@.len() - end,
    {
        end = end + 1;
    }
    (start, end)
}

/// How the inside of a path is told from the outside.
#[derive(Clone, Copy, PartialEq, Eq, Structural, Debug)]
pub enum FillRule {
    NonZero,
    EvenOdd,
}

/// The bytes `fill-rule`.
pub open spec fn fill_rule_name() -> Seq<u8> {
    seq![0x66u8, 0x69u8, 0x6Cu8, 0x6Cu8, 0x2Du8, 0x72u8, 0x75u8, 0x6Cu8, 0x65u8]
}

/// The bytes `evenodd`.
pub open spec fn even_odd_name() -> Seq<u8> {
    seq![0x65u8, 0x76u8, 0x65u8, 0x6Eu8, 0x6Fu8, 0x64u8, 0x64u8]
}

/// The fill rule of a path tag: even-odd when its `fill-rule` attribute is exactly
/// `evenodd`, else non-zero.
pub open spec fn spec_fill_rule(tag: Seq<u8>) -> FillRule {
    match attribute_from(tag, 0, fill_rule_name()) {
        Some(span) => if tag.subrange(span.0 as int, span.1 as int) == even_odd_name() { FillRule::EvenOdd } else { FillRule::NonZero },
        None => FillRule::NonZero,
    }
}

/// The fill rule of a path tag: even-odd when its `fill-rule` attribute is exactly
/// `evenodd`, else non-zero.
pub fn fill_rule(tag: &[u8]) -> (rule: FillRule)
    ensures
        rule == spec_fill_rule(tag@),
{
    let key = [0x66u8, 0x69u8, 0x6Cu8, 0x6Cu8, 0x2Du8, 0x72u8, 0x75u8, 0x6Cu8, 0x65u8];
    let even_odd = [0x65u8, 0x76u8, 0x65u8, 0x6Eu8, 0x6Fu8, 0x64u8, 0x64u8];
    assert(key@ =~= fill_rule_name());
    assert(even_odd@ =~= even_odd_name());
    let n = tag.len();
    match attribute(tag, key.as_slice()) {
        Some((s, e)) => {
            proof {
                lemma_attribute_span(tag@, 0, fill_rule_name());
            }
            if equal_at(tag, s, e, even_odd.as_slice()) { FillRule::EvenOdd } else { FillRule::NonZero }
        },
        None => FillRule::NonZero,
    }
}

} // verus!
