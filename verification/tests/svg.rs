use kricon::path::{path_tokens, Arg, ByteClass, Cursor};
use kricon::path::Arg::{Flag, Number};
use kricon::svg::{attribute, fill_rule, property, tag_name, tags, FillRule};
use kricon::toolbar::{tools, Tool, Toolbar};

fn text<'a>(source: &'a [u8], span: (usize, usize)) -> &'a [u8] {
    &source[span.0..span.1]
}

#[test]
fn tags_skip_comments_and_stop_at_an_open_tag() {
    let source = b"<svg a='1'><!-- <x> --><path d=\"M0 0\"/></svg><unclosed";
    let found: Vec<&[u8]> = tags(source).into_iter().map(|span| text(source, span)).collect();
    assert_eq!(found, vec![&b"svg a='1'"[..], b"path d=\"M0 0\"/", b"/svg"]);
}

#[test]
fn tags_stop_at_an_unclosed_comment() {
    let source = b"<a><!-- <b>";
    assert_eq!(tags(source), vec![(1, 2)]);
}

#[test]
fn attribute_finds_quoted_values() {
    let tag = b"path id = 'p1' d=\"M 0 0 L 1 1\" fill='none'";
    assert_eq!(attribute(tag, b"d").map(|span| text(tag, span)), Some(&b"M 0 0 L 1 1"[..]));
    assert_eq!(attribute(tag, b"id").map(|span| text(tag, span)), Some(&b"p1"[..]));
    assert_eq!(attribute(tag, b"stroke"), None);
}

#[test]
fn attribute_stops_at_an_unquoted_value() {
    let tag = b"rect x=1 y='2'";
    assert_eq!(attribute(tag, b"y"), None);
}

#[test]
fn property_prefers_the_style_declaration() {
    let tag = b"path fill='red' style='stroke: none ; fill : blue '";
    assert_eq!(property(tag, b"fill").map(|span| text(tag, span)), Some(&b"blue"[..]));
    assert_eq!(property(tag, b"stroke").map(|span| text(tag, span)), Some(&b"none"[..]));
    let plain = b"path fill=' red '";
    assert_eq!(property(plain, b"fill").map(|span| text(plain, span)), Some(&b"red"[..]));
    assert_eq!(property(plain, b"opacity"), None);
}

#[test]
fn tag_names() {
    let tag = b"path d='x'";
    assert_eq!(text(tag, tag_name(tag, false)), b"path");
    let closing = b"/g";
    assert_eq!(text(closing, tag_name(closing, true)), b"g");
    let empty = b"circle/";
    assert_eq!(text(empty, tag_name(empty, false)), b"circle");
}

#[test]
fn fill_rules() {
    assert_eq!(fill_rule(b"path fill-rule='evenodd'"), FillRule::EvenOdd);
    assert_eq!(fill_rule(b"path fill-rule='nonzero'"), FillRule::NonZero);
    assert_eq!(fill_rule(b"path"), FillRule::NonZero);
}

#[test]
fn cursor_reads_letters_numbers_and_flags() {
    let data = b" M10,-2.5e1 .5 1e 5. a 0 1";
    let mut cursor = Cursor::new(data);
    assert_eq!(cursor.letter(), Some(b'M'));
    assert_eq!(cursor.number_span().map(|span| text(data, span)), Some(&b"10"[..]));
    assert_eq!(cursor.number_span().map(|span| text(data, span)), Some(&b"-2.5e1"[..]));
    assert_eq!(cursor.number_span().map(|span| text(data, span)), Some(&b".5"[..]));
    assert_eq!(cursor.number_span().map(|span| text(data, span)), Some(&b"1"[..]));
    assert_eq!(cursor.letter(), Some(b'e'));
    assert_eq!(cursor.number_span().map(|span| text(data, span)), Some(&b"5."[..]));
    assert_eq!(cursor.number_span(), None);
    assert_eq!(cursor.letter(), Some(b'a'));
    assert_eq!(cursor.flag(), Some(false));
    assert_eq!(cursor.flag(), Some(true));
    assert!(cursor.done());
    assert_eq!(cursor.flag(), None);
}

#[test]
fn cursor_primitives() {
    let data = b"12x";
    let mut cursor = Cursor::new(data);
    assert!(cursor.digits());
    assert_eq!(cursor.pos, 2);
    assert!(!cursor.digits());
    assert!(!cursor.eat(ByteClass::Digit));
    assert!(!cursor.done());
    assert_eq!(cursor.flag(), None);
    assert_eq!(cursor.pos, 3);
    assert!(cursor.done());
}

#[test]
fn toolbar_buttons() {
    assert_eq!(tools(), [Tool::Edit, Tool::Brush, Tool::Layers]);
    assert_eq!(Tool::Brush.icon(), "res/icons/ico_boring.svg");
    let mut toolbar = Toolbar::new();
    assert!(!toolbar.selected(Tool::Edit, None));
    assert_eq!(toolbar.click(Tool::Edit, None), None);
    assert_eq!(toolbar.active, Some(Tool::Edit));
    assert_eq!(toolbar.click(Tool::Edit, None), None);
    assert_eq!(toolbar.active, None);
    assert_eq!(toolbar.click(Tool::Brush, None), Some(Tool::Brush));
    assert_eq!(toolbar.active, Some(Tool::Edit));
    assert!(toolbar.selected(Tool::Brush, Some(Tool::Brush)));
    toolbar.click(Tool::Layers, None);
    assert!(toolbar.layers);
}

#[test]
fn unicode_white_space_separates_words() {
    let tag = "rect\u{a0}fill\u{2003}=\u{3000}'red'".as_bytes();
    assert_eq!(tag_name(tag, false), (0, 4));
    assert_eq!(attribute(tag, b"fill").map(|span| text(tag, span)), Some(&b"red"[..]));
    let accented = "caf\u{e9} x='1'".as_bytes();
    assert_eq!(tag_name(accented, false), (0, 5));
}

#[test]
fn path_tokens_read_letters_and_arguments() {
    assert_eq!(
        path_tokens(b"M1 2l3,4 5 6Z"),
        vec![
            (b'M', vec![Number(1, 2), Number(3, 4)]),
            (b'l', vec![Number(5, 6), Number(7, 8)]),
            (b'l', vec![Number(9, 10), Number(11, 12)]),
            (b'Z', vec![]),
        ]
    );
    assert_eq!(
        path_tokens(b"M0 0 1 1"),
        vec![(b'M', vec![Number(1, 2), Number(3, 4)]), (b'L', vec![Number(5, 6), Number(7, 8)])]
    );
    assert_eq!(
        path_tokens(b"a1 1 0 1 0 2 2"),
        vec![(b'a', vec![Number(1, 2), Number(3, 4), Number(5, 6), Flag(true), Flag(false), Number(11, 12), Number(13, 14)])]
    );
    assert!(path_tokens(b"L1").is_empty());
    assert!(path_tokens(b"1 2").is_empty());
    assert_eq!(path_tokens(b"M1 2 X 3"), vec![(b'M', vec![Number(1, 2), Number(3, 4)])]);
}
