use crate::svg::{equal_at, find_from, find_in, lemma_find_from, lemma_find_in, search, search_in, trim_span, trimmed};
use vstd::prelude::*;

verus! {

/// The entries of a settings text from position `pos` on: for each line that holds a
/// `=`, the spans of the key before the first `=` and of the value after it, both without
/// white space at either end. Lines end at a line feed, which a carriage return may
/// precede; the last line needs no line feed.
pub open spec fn setting_lines(text: Seq<u8>, pos: int) -> Seq<((usize, usize), (usize, usize))>
    decreases text.len() + 1 - pos,
{
    if pos < 0 || pos >= text.len() {
        Seq::empty()
    } else {
        let (end, next) = match find_from(text, pos, 0x0Au8) {
            Some(i) => (if i > pos && text[i - 1] == 0x0Du8 { i - 1 } else { i }, i + 1),
            None => (text.len() as int, text.len() as int),
        };
        let rest = if pos < next <= text.len() { setting_lines(text, next) } else { Seq::empty() };
        match find_in(text, pos, end, 0x3Du8) {
            None => rest,
            Some(eq) => seq![(trimmed(text, pos, eq), trimmed(text, eq + 1, end))] + rest,
        }
    }
}

/// The entries of a settings text: for each line that holds a `=`, the spans of the key
/// and of the value (see `setting_lines`).
pub fn settings_entries(text: &[u8]) -> (entries: Vec<((usize, usize), (usize, usize))>)
    ensures
        entries@ == setting_lines(text@, 0),
{
    let n = text.len();
    let mut entries: Vec<((usize, usize), (usize, usize))> = Vec::new();
    let mut pos: usize = 0;
    while pos < n
        invariant
            n == text@.len(),
            pos <= n,
            entries@ + setting_lines(text@, pos as int) == setting_lines(text@, 0),
        decreases n - pos,
    {
        proof {
            lemma_find_from(text@, pos as int, 0x0Au8);
        }
        let (end, next) = match search(text, pos, 0x0A) {
            Some(i) => (if i > pos && text[i - 1] == 0x0D { i - 1 } else { i }, i + 1),
            None => (n, n),
        };
        proof {
            lemma_find_in(text@, pos as int, end as int, 0x3Du8);
        }
        let ghost rest = setting_lines(text@, next as int);
        match search_in(text, pos, end, 0x3D) {
            None => {
                assert(setting_lines(text@, pos as int) == rest);
            },
            Some(eq) => {
                let key = trim_span(text, pos, eq);
                let value = trim_span(text, eq + 1, end);
                entries.push((key, value));
                proof {
                    assert(setting_lines(text@, pos as int) == seq![(trimmed(text@, pos as int, eq as int), trimmed(text@, eq + 1, end as int))] + rest);
                    assert(entries@ + rest =~= setting_lines(text@, 0));
                }
            },
        }
        pos = next;
    }
    assert(entries@ + setting_lines(text@, pos as int) =~= entries@);
    entries
}

/// A flag in a settings text: `true` or `false`, nothing else.
pub fn parse_flag(value: &[u8]) -> (flag: Option<bool>)
    ensures
        flag == if value@ == seq![0x74u8, 0x72u8, 0x75u8, 0x65u8] {
            Some(true)
        } else if value@ == seq![0x66u8, 0x61u8, 0x6Cu8, 0x73u8, 0x65u8] {
            Some(false)
        } else {
            None::<bool>
        },
{
    let yes = [0x74u8, 0x72u8, 0x75u8, 0x65u8];
    let no = [0x66u8, 0x61u8, 0x6Cu8, 0x73u8, 0x65u8];
    assert(yes@ =~= seq![0x74u8, 0x72u8, 0x75u8, 0x65u8]);
    assert(no@ =~= seq![0x66u8, 0x61u8, 0x6Cu8, 0x73u8, 0x65u8]);
    assert(value@.subrange(0, value@.len() as int) =~= value@);
    if equal_at(value, 0, value.len(), yes.as_slice()) {
        Some(true)
    } else if equal_at(value, 0, value.len(), no.as_slice()) {
        Some(false)
    } else {
        None
    }
}

} // verus!
