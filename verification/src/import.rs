use crate::codec::string_from_utf8;
use crate::mesh::Rgba;
use crate::svg::{equal_at, name_span, tag_name};
use vstd::utf8::{decode_utf8, valid_utf8};
use vstd::prelude::*;

verus! {

/// What the importer does with a tag.
#[derive(Clone, Copy, PartialEq, Eq, Structural, Debug)]
pub enum TagStep {
    /// Nothing: the tag is passed over.
    Skip,
    /// The tag closes a group: its style goes.
    Close,
    /// The tag opens a group: the style it gives, inherited from the current one, goes on.
    Open,
    /// The tag may draw a shape in the style it gives, inherited from the current one.
    Shape,
}

/// Where the importer stands in the tree of tags: how deep inside elements whose contents
/// are not drawn (definitions, masks, gradients and the like), and how many styles are
/// open, the outermost included.
pub struct Walk {
    pub skipped: usize,
    pub depth: usize,
}

/// The names of the elements whose contents are not drawn.
pub open spec fn skipped_names() -> Seq<Seq<u8>> {
    seq![
        seq![0x64u8, 0x65u8, 0x66u8, 0x73u8],
        seq![0x63u8, 0x6Cu8, 0x69u8, 0x70u8, 0x50u8, 0x61u8, 0x74u8, 0x68u8],
        seq![0x6Du8, 0x61u8, 0x73u8, 0x6Bu8],
        seq![0x73u8, 0x79u8, 0x6Du8, 0x62u8, 0x6Fu8, 0x6Cu8],
        seq![0x70u8, 0x61u8, 0x74u8, 0x74u8, 0x65u8, 0x72u8, 0x6Eu8],
        seq![0x6Du8, 0x61u8, 0x72u8, 0x6Bu8, 0x65u8, 0x72u8],
        seq![0x6Cu8, 0x69u8, 0x6Eu8, 0x65u8, 0x61u8, 0x72u8, 0x47u8, 0x72u8, 0x61u8, 0x64u8, 0x69u8, 0x65u8, 0x6Eu8, 0x74u8],
        seq![0x72u8, 0x61u8, 0x64u8, 0x69u8, 0x61u8, 0x6Cu8, 0x47u8, 0x72u8, 0x61u8, 0x64u8, 0x69u8, 0x65u8, 0x6Eu8, 0x74u8],
    ]
}

/// Whether a name is that of a group: `g` or `svg`.
pub open spec fn is_group(name: Seq<u8>) -> bool {
    name == seq![0x67u8] || name == seq![0x73u8, 0x76u8, 0x67u8]
}

/// The name of a tag, after the `/` of a closing tag.
pub open spec fn tag_name_of(tag: Seq<u8>) -> Seq<u8> {
    let span = name_span(tag, true);
    tag.subrange(span.0 as int, span.1 as int)
}

/// What the importer does with `tag`, and where it stands after: the contents of
/// skipped elements are passed over; a closing group tag closes a style, unless only
/// the outermost is open; an opening group tag opens one, unless it is empty (`/>`);
/// any other tag may draw a shape.
pub open spec fn walk_step(skipped: usize, depth: usize, tag: Seq<u8>) -> (TagStep, int, int) {
    let closing = tag.len() > 0 && tag[0] == 0x2Fu8;
    let empty = tag.len() > 0 && tag[tag.len() - 1] == 0x2Fu8;
    let name = tag_name_of(tag);
    if skipped_names().contains(name) {
        let next = if closing { if skipped > 0 { skipped - 1 } else { 0 } } else if !empty { skipped + 1 } else { skipped as int };
        (TagStep::Skip, next, depth as int)
    } else if skipped > 0 {
        (TagStep::Skip, skipped as int, depth as int)
    } else if closing {
        if is_group(name) && depth > 1 { (TagStep::Close, skipped as int, depth - 1) } else { (TagStep::Skip, skipped as int, depth as int) }
    } else if is_group(name) {
        if !empty { (TagStep::Open, skipped as int, depth + 1) } else { (TagStep::Skip, skipped as int, depth as int) }
    } else {
        (TagStep::Shape, skipped as int, depth as int)
    }
}

fn is_skipped(tag: &[u8], lo: usize, hi: usize) -> (found: bool)
    requires
        lo <= hi <= tag@.len(),
    ensures
        found == skipped_names().contains(tag@.subrange(lo as int, hi as int)),
{
    let names: [&[u8]; 8] = [
        &[0x64u8, 0x65u8, 0x66u8, 0x73u8],
        &[0x63u8, 0x6Cu8, 0x69u8, 0x70u8, 0x50u8, 0x61u8, 0x74u8, 0x68u8],
        &[0x6Du8, 0x61u8, 0x73u8, 0x6Bu8],
        &[0x73u8, 0x79u8, 0x6Du8, 0x62u8, 0x6Fu8, 0x6Cu8],
        &[0x70u8, 0x61u8, 0x74u8, 0x74u8, 0x65u8, 0x72u8, 0x6Eu8],
        &[0x6Du8, 0x61u8, 0x72u8, 0x6Bu8, 0x65u8, 0x72u8],
        &[0x6Cu8, 0x69u8, 0x6Eu8, 0x65u8, 0x61u8, 0x72u8, 0x47u8, 0x72u8, 0x61u8, 0x64u8, 0x69u8, 0x65u8, 0x6Eu8, 0x74u8],
        &[0x72u8, 0x61u8, 0x64u8, 0x69u8, 0x61u8, 0x6Cu8, 0x47u8, 0x72u8, 0x61u8, 0x64u8, 0x69u8, 0x65u8, 0x6Eu8, 0x74u8],
    ];
    let ghost list = skipped_names();
    assert(names@.len() == 8);
    assert forall|k: int| 0 <= k < 8 implies (#[trigger] names@[k])@ == list[k] by {
        assert(names@[0]@ =~= list[0]);
        assert(names@[1]@ =~= list[1]);
        assert(names@[2]@ =~= list[2]);
        assert(names@[3]@ =~= list[3]);
        assert(names@[4]@ =~= list[4]);
        assert(names@[5]@ =~= list[5]);
        assert(names@[6]@ =~= list[6]);
        assert(names@[7]@ =~= list[7]);
    }
    let mut k: usize = 0;
    while k < 8
        invariant
            k <= 8,
            lo <= hi <= tag@.len(),
            names@.len() == 8,
            list == skipped_names(),
            forall|q: int| 0 <= q < 8 ==> (#[trigger] names@[q])@ == list[q],
            forall|q: int| 0 <= q < k ==> list[q] != tag@.subrange(lo as int, hi as int),
        decreases 8 - k,
    {
        if equal_at(tag, lo, hi, names[k]) {
            assert(list[k as int] == tag@.subrange(lo as int, hi as int));
            return true;
        }
        k = k + 1;
    }
    proof {
        if list.contains(tag@.subrange(lo as int, hi as int)) {
            let q = choose|q: int| 0 <= q < list.len() && list[q] == tag@.subrange(lo as int, hi as int);
            assert(list[q] != tag@.subrange(lo as int, hi as int));
        }
    }
    false
}

impl Walk {
    /// The start of a document: nothing skipped, the outermost style open.
    pub fn new() -> (walk: Self)
        ensures
            walk.skipped == 0,
            walk.depth == 1,
    {
        Walk { skipped: 0, depth: 1 }
    }

    /// Takes the next tag of the document (see `walk_step`).
    pub fn step(&mut self, tag: &[u8]) -> (step: TagStep)
        requires
            old(self).skipped < usize::MAX,
            old(self).depth < usize::MAX,
        ensures
            ({
                let (expected, skipped, depth) = walk_step(old(self).skipped, old(self).depth, tag@);
                step == expected && final(self).skipped == skipped && final(self).depth == depth
            }),
    {
        let n = tag.len();
        let closing = n > 0 && tag[0] == 0x2F;
        let empty = n > 0 && tag[n - 1] == 0x2F;
        let (lo, hi) = tag_name(tag, true);
        let g = [0x67u8];
        let svg = [0x73u8, 0x76u8, 0x67u8];
        assert(g@ =~= seq![0x67u8]);
        assert(svg@ =~= seq![0x73u8, 0x76u8, 0x67u8]);
        if is_skipped(tag, lo, hi) {
            if closing {
                if self.skipped > 0 {
                    self.skipped = self.skipped - 1;
                }
            } else if !empty {
                self.skipped = self.skipped + 1;
            }
            return TagStep::Skip;
        }
        if self.skipped > 0 {
            return TagStep::Skip;
        }
        let group = equal_at(tag, lo, hi, g.as_slice()) || equal_at(tag, lo, hi, svg.as_slice());
        if closing {
            if group && self.depth > 1 {
                self.depth = self.depth - 1;
                return TagStep::Close;
            }
            return TagStep::Skip;
        }
        if group {
            if !empty {
                self.depth = self.depth + 1;
                return TagStep::Open;
            }
            return TagStep::Skip;
        }
        TagStep::Shape
    }
}

} // verus!

verus! {

/// What a shape is filled with: nothing, the default colour, or a colour of its own.
#[derive(Clone, Copy, PartialEq, Eq, Structural, Debug)]
pub enum Paint {
    Nothing,
    Default,
    Color(Rgba),
}

/// The colour that `Color32::from_hex` of egui's colour crate reads from `text`, taken by
/// its premultiplied bytes, or none where it reports an error.
pub uninterp spec fn hex_color(text: Seq<char>) -> Option<Rgba>;

/// The value of a hexadecimal digit, or -1 for any other character.
pub open spec fn hex_value(c: char) -> int {
    if '0' <= c && c <= '9' {
        c as int - '0' as int
    } else if 'a' <= c && c <= 'f' {
        c as int - 'a' as int + 10
    } else if 'A' <= c && c <= 'F' {
        c as int - 'A' as int + 10
    } else {
        -1
    }
}

/// `text` is a `#` followed by `digits` hexadecimal digits.
pub open spec fn hex_code(text: Seq<char>, digits: int) -> bool {
    &&& text.len() == digits + 1
    &&& text[0] == '#'
    &&& forall|i: int| 1 <= i < text.len() ==> #[trigger] hex_value(text[i]) >= 0
}

/// The byte that the two digits at `i` of `text` write.
pub open spec fn hex_byte(text: Seq<char>, i: int) -> u8 {
    (hex_value(text[i]) * 16 + hex_value(text[i + 1])) as u8
}

/// The byte that the one digit at `i` of `text` writes, repeated.
pub open spec fn hex_nibble(text: Seq<char>, i: int) -> u8 {
    (hex_value(text[i]) * 17) as u8
}

/// The byte `v` with alpha `a` premultiplied, rounded as egui's colour crate does it
/// without floating point: nothing at no alpha, `v` itself at full alpha.
pub open spec fn premultiplied(v: u8, a: u8) -> u8 {
    if a == 0 {
        0
    } else if a == 255 {
        v
    } else {
        let p = v * a + 128;
        ((p + p / 256) / 256) as u8
    }
}

/// The colour of red, green, blue and alpha bytes, the colour bytes premultiplied by the
/// alpha.
pub open spec fn unmultiplied(r: u8, g: u8, b: u8, a: u8) -> Rgba {
    Rgba { r: premultiplied(r, a), g: premultiplied(g, a), b: premultiplied(b, a), a }
}

/// Every character of `text` is ASCII.
pub open spec fn ascii_text(text: Seq<char>) -> bool {
    forall|i: int| 0 <= i < text.len() ==> (#[trigger] text[i] as u32) < 0x80
}

/// Calls `Color32::from_hex`, which reads a `#` followed by 3, 4, 6 or 8 hexadecimal
/// digits and reports an error for anything else. The contract names the result and
/// states what the source shows: text that does not start with `#`, or ASCII text with
/// another number of characters after it, is refused; `#rgb` and `#rrggbb` give those
/// bytes with full alpha, and `#rgba` and `#rrggbbaa` those bytes premultiplied by the
/// alpha. Text that is not ASCII, or holds a character other than a hexadecimal digit
/// after the `#`, is refused, but for a `+` right after the `#`, which reads as a `0`
/// since the digit reading takes a leading sign.
#[verifier::external_body]
fn read_hex(text: &str) -> (color: Option<Rgba>)
    ensures
        color == hex_color(text@),
        (text@.len() == 0 || text@[0] != '#') ==> color is None,
        hex_code(text@, 6) ==> color == Some(Rgba {
            r: hex_byte(text@, 1), g: hex_byte(text@, 3), b: hex_byte(text@, 5), a: 255 }),
        hex_code(text@, 3) ==> color == Some(Rgba {
            r: hex_nibble(text@, 1), g: hex_nibble(text@, 2), b: hex_nibble(text@, 3), a: 255 }),
        hex_code(text@, 8) ==> color == Some(unmultiplied(hex_byte(text@, 1), hex_byte(text@, 3), hex_byte(text@, 5),
            hex_byte(text@, 7))),
        hex_code(text@, 4) ==> color == Some(unmultiplied(hex_nibble(text@, 1), hex_nibble(text@, 2), hex_nibble(text@, 3),
            hex_nibble(text@, 4))),
        ascii_text(text@) && text@.len() != 4 && text@.len() != 5 && text@.len() != 7 && text@.len() != 9 ==> color is None,
        !ascii_text(text@) ==> color is None,
        text@.len() >= 2 && text@[1] == '+' ==> color == hex_color(text@.update(1, '0')),
        text@.len() >= 2 && text@[1] != '+' && hex_value(text@[1]) < 0 ==> color is None,
        (exists|i: int| 2 <= i < text@.len() && #[trigger] hex_value(text@[i]) < 0) ==> color is None,
{
    match eframe::egui::Color32::from_hex(text) {
        Ok(color) => {
            let [r, g, b, a] = color.to_array();
            Some(Rgba { r, g, b, a })
        },
        Err(_) => None,
    }
}

/// The bytes `none`.
pub open spec fn none_word() -> Seq<u8> { seq![0x6Eu8, 0x6Fu8, 0x6Eu8, 0x65u8] }
/// The bytes `transparent`.
pub open spec fn transparent_word() -> Seq<u8> {
    seq![0x74u8, 0x72u8, 0x61u8, 0x6Eu8, 0x73u8, 0x70u8, 0x61u8, 0x72u8, 0x65u8, 0x6Eu8, 0x74u8]
}
/// The bytes `black`.
pub open spec fn black_word() -> Seq<u8> { seq![0x62u8, 0x6Cu8, 0x61u8, 0x63u8, 0x6Bu8] }
/// The bytes `white`.
pub open spec fn white_word() -> Seq<u8> { seq![0x77u8, 0x68u8, 0x69u8, 0x74u8, 0x65u8] }

/// The paint that a `fill` value gives: `none` and `transparent` paint nothing, `black`
/// and `white` their colours, a hexadecimal colour that colour, and anything else the
/// default colour.
pub open spec fn spec_paint(value: Seq<u8>) -> Paint {
    if value == none_word() || value == transparent_word() {
        Paint::Nothing
    } else if value == black_word() {
        Paint::Color(Rgba { r: 0, g: 0, b: 0, a: 255 })
    } else if value == white_word() {
        Paint::Color(Rgba { r: 255, g: 255, b: 255, a: 255 })
    } else if valid_utf8(value) {
        match hex_color(decode_utf8(value)) {
            Some(color) => Paint::Color(color),
            None => Paint::Default,
        }
    } else {
        Paint::Default
    }
}

/// The first character of valid UTF-8 that starts with an ASCII byte is that byte.
proof fn lemma_first_char(bytes: Seq<u8>)
    requires
        valid_utf8(bytes),
        bytes.len() > 0,
        bytes[0] < 0x80,
    ensures
        decode_utf8(bytes).len() > 0,
        decode_utf8(bytes)[0] == bytes[0] as char,
{
    let b = bytes[0];
    assert(b & 0x7F == b) by (bit_vector)
        requires
            b < 0x80,
    ;
}

/// The paint that the `fill` value `value` gives (see `spec_paint`).
pub fn parse_paint(value: &[u8]) -> (paint: Paint)
    ensures
        paint == spec_paint(value@),
        valid_utf8(value@) && hex_code(decode_utf8(value@), 6) ==> {
            let text = decode_utf8(value@);
            paint == Paint::Color(Rgba { r: hex_byte(text, 1), g: hex_byte(text, 3), b: hex_byte(text, 5), a: 255 })
        },
        valid_utf8(value@) && hex_code(decode_utf8(value@), 3) ==> {
            let text = decode_utf8(value@);
            paint == Paint::Color(Rgba { r: hex_nibble(text, 1), g: hex_nibble(text, 2), b: hex_nibble(text, 3), a: 255 })
        },
        valid_utf8(value@) && hex_code(decode_utf8(value@), 8) ==> {
            let text = decode_utf8(value@);
            paint == Paint::Color(unmultiplied(hex_byte(text, 1), hex_byte(text, 3), hex_byte(text, 5), hex_byte(text, 7)))
        },
        valid_utf8(value@) && hex_code(decode_utf8(value@), 4) ==> {
            let text = decode_utf8(value@);
            paint == Paint::Color(unmultiplied(hex_nibble(text, 1), hex_nibble(text, 2), hex_nibble(text, 3), hex_nibble(text, 4)))
        },
{
    proof {
        if valid_utf8(value@) && value@.len() > 0 && value@[0] < 0x80 {
            lemma_first_char(value@);
        }
    }
    let n = value.len();
    let none = [0x6Eu8, 0x6Fu8, 0x6Eu8, 0x65u8];
    let transparent = [0x74u8, 0x72u8, 0x61u8, 0x6Eu8, 0x73u8, 0x70u8, 0x61u8, 0x72u8, 0x65u8, 0x6Eu8, 0x74u8];
    let black = [0x62u8, 0x6Cu8, 0x61u8, 0x63u8, 0x6Bu8];
    let white = [0x77u8, 0x68u8, 0x69u8, 0x74u8, 0x65u8];
    assert(none@ =~= none_word());
    assert(transparent@ =~= transparent_word());
    assert(black@ =~= black_word());
    assert(white@ =~= white_word());
    assert(value@.subrange(0, n as int) =~= value@);
    if equal_at(value, 0, n, none.as_slice()) || equal_at(value, 0, n, transparent.as_slice()) {
        Paint::Nothing
    } else if equal_at(value, 0, n, black.as_slice()) {
        Paint::Color(Rgba { r: 0, g: 0, b: 0, a: 255 })
    } else if equal_at(value, 0, n, white.as_slice()) {
        Paint::Color(Rgba { r: 255, g: 255, b: 255, a: 255 })
    } else {
        match string_from_utf8(vstd::slice::slice_to_vec(value)) {
            Some(text) => match read_hex(text.as_str()) {
                Some(color) => Paint::Color(color),
                None => Paint::Default,
            },
            None => Paint::Default,
        }
    }
}

} // verus!
