use cog::data::{BlockSpec, Coloring, ConnectionSpec, ConnectionType, DataSpec};
use cog::parser::driver::{read_to_specification, ParserError};
use cog::parser::nodes::{
    box_spec, color_select, coloring_spec, conn_type_spec, connection_spec, data_spec,
    defaulted_color, eol_space_spec, full_graph_spec, ident_str, is_alphanumeric, is_whitespace,
    trim_text, Parsed,
};
use cog::parser::nodes::Parsed::Done;

#[test]
fn parser_black_box_spec() {
    let input = &b"box text tester color black\nThis is the included text"[..];
    assert_eq!(
        box_spec(input),
        Done(
            &b""[..],
            BlockSpec::Boxed(
                "tester".to_owned(),
                Coloring::Black,
                "This is the included text".to_owned()
            )
        )
    );
}

#[test]
fn nodes_black_box_spec() {
    let input = &b"box text tester color black\nThis is the included text"[..];
    assert_eq!(
        box_spec(input),
        Done(
            &b""[..],
            BlockSpec::Boxed(
                "tester".to_owned(),
                Coloring::Black,
                "This is the included text".to_owned()
            )
        )
    );
}

#[test]
fn parser_conn_test() {
    let input = &b"generic connection a b\n"[..];
    let in2 = &b"dual connection foo bar color red"[..];
    let no_ty_spec = &b"connection foo bar\n"[..];
    assert_eq!(
        connection_spec(input),
        Done(
            &b"\n"[..],
            ConnectionSpec {
                ty: ConnectionType::Generic,
                start: "a".to_owned(),
                end: "b".to_owned(),
                color: Coloring::Default
            }
        )
    );
    assert_eq!(
        connection_spec(in2),
        Done(
            &b""[..],
            ConnectionSpec {
                ty: ConnectionType::Dual,
                start: "foo".to_owned(),
                end: "bar".to_owned(),
                color: Coloring::Red
            }
        )
    );
    assert_eq!(
        connection_spec(no_ty_spec),
        Done(
            &b"\n"[..],
            ConnectionSpec {
                ty: ConnectionType::Generic,
                start: "foo".to_owned(),
                end: "bar".to_owned(),
                color: Coloring::Default
            }
        )
    );
}

#[test]
fn nodes_conn_test() {
    let input = &b"generic connection a b\n"[..];
    let in2 = &b"dual connection foo bar color red"[..];
    let no_ty_spec = &b"connection foo bar\n"[..];
    assert_eq!(
        connection_spec(input),
        Done(
            &b"\n"[..],
            ConnectionSpec {
                ty: ConnectionType::Generic,
                start: "a".to_owned(),
                end: "b".to_owned(),
                color: Coloring::Default
            }
        )
    );
    assert_eq!(
        connection_spec(in2),
        Done(
            &b""[..],
            ConnectionSpec {
                ty: ConnectionType::Dual,
                start: "foo".to_owned(),
                end: "bar".to_owned(),
                color: Coloring::Red
            }
        )
    );
    assert_eq!(
        connection_spec(no_ty_spec),
        Done(
            &b"\n"[..],
            ConnectionSpec {
                ty: ConnectionType::Generic,
                start: "foo".to_owned(),
                end: "bar".to_owned(),
                color: Coloring::Default
            }
        )
    );
}

#[test]
fn color_spec() {
    let input = &b" color red"[..];
    let col_in = &b"red"[..];
    assert_eq!(color_select(col_in), Done(&b""[..], Coloring::Red));
    assert_eq!(defaulted_color(input), Done(&b""[..], Coloring::Red));
}

#[test]
fn every_colour_has_its_name() {
    for (name, color) in [
        ("red", Coloring::Red),
        ("cyan", Coloring::Cyan),
        ("blue", Coloring::Blue),
        ("black", Coloring::Black),
        ("green", Coloring::Green),
        ("white", Coloring::White),
        ("yellow", Coloring::Yellow),
        ("magenta", Coloring::Magenta),
        ("default", Coloring::Default),
    ] {
        assert_eq!(color_select(name.as_bytes()), Done(&b""[..], color));
        let spec = format!("color \t{} rest", name);
        assert_eq!(coloring_spec(spec.as_bytes()), Done(&b" rest"[..], color));
    }
    assert_eq!(color_select(b"purple"), Parsed::Error);
    assert_eq!(color_select(b"re"), Parsed::Error);
    assert_eq!(color_select(b""), Parsed::Error);
    assert_eq!(color_select(b"reddish"), Done(&b"dish"[..], Coloring::Red));
    assert_eq!(coloring_spec(b"colorred"), Parsed::Error);
    assert_eq!(coloring_spec(b"color "), Parsed::Error);
}

#[test]
fn a_colour_that_is_not_given_is_the_default() {
    assert_eq!(defaulted_color(b""), Done(&b""[..], Coloring::Default));
    assert_eq!(defaulted_color(b"\n"), Done(&b"\n"[..], Coloring::Default));
    assert_eq!(defaulted_color(b"  \n"), Done(&b"  \n"[..], Coloring::Default));
    assert_eq!(defaulted_color(b" color"), Done(&b" color"[..], Coloring::Default));
    assert_eq!(defaulted_color(b" color pink"), Done(&b" color pink"[..], Coloring::Default));
    assert_eq!(defaulted_color(b"color red"), Done(&b"color red"[..], Coloring::Default));
    assert_eq!(defaulted_color(b"\tcolor\tblue\t"), Done(&b"\t"[..], Coloring::Blue));
}

#[test]
fn kinds_and_names() {
    assert_eq!(conn_type_spec(b"generic"), Done(&b""[..], ConnectionType::Generic));
    assert_eq!(conn_type_spec(b"singular x"), Done(&b" x"[..], ConnectionType::Singular));
    assert_eq!(conn_type_spec(b"dual"), Done(&b""[..], ConnectionType::Dual));
    assert_eq!(conn_type_spec(b"triple"), Parsed::Error);
    assert_eq!(ident_str(b"abc123 d"), Done(&b" d"[..], "abc123".to_owned()));
    assert_eq!(ident_str(b"Zz09"), Done(&b""[..], "Zz09".to_owned()));
    assert_eq!(ident_str(b"_a"), Parsed::Error);
    assert_eq!(ident_str(b""), Parsed::Error);
    assert_eq!(ident_str("é".as_bytes()), Parsed::Error);
    assert!(is_alphanumeric(b'a') && is_alphanumeric(b'Z') && is_alphanumeric(b'5'));
    assert!(!is_alphanumeric(b'-') && !is_alphanumeric(b' ') && !is_alphanumeric(0xc3));
}

#[test]
fn connections() {
    assert_eq!(
        connection_spec(b"  singular   connection x1 y2 color cyan\nmore"),
        Done(
            &b"\nmore"[..],
            ConnectionSpec {
                ty: ConnectionType::Singular,
                start: "x1".to_owned(),
                end: "y2".to_owned(),
                color: Coloring::Cyan
            }
        )
    );
    assert_eq!(connection_spec(b"connection a"), Parsed::Error);
    assert_eq!(connection_spec(b"connection a "), Parsed::Error);
    assert_eq!(connection_spec(b"connectiona b"), Parsed::Error);
    assert_eq!(connection_spec(b"dualconnection a b"), Parsed::Error);
    assert_eq!(connection_spec(b"triple connection a b"), Parsed::Error);
    assert_eq!(connection_spec(b""), Parsed::Error);
    // a connection between blocks called "dual" and "b"
    assert_eq!(
        connection_spec(b"connection dual b"),
        Done(
            &b""[..],
            ConnectionSpec {
                ty: ConnectionType::Generic,
                start: "dual".to_owned(),
                end: "b".to_owned(),
                color: Coloring::Default
            }
        )
    );
}

#[test]
fn boxes() {
    assert_eq!(
        box_spec(b" box\ttext  b2 \t\r\n   some text \t\nnext"),
        Done(
            &b"\nnext"[..],
            BlockSpec::Boxed("b2".to_owned(), Coloring::Default, "some text".to_owned())
        )
    );
    assert_eq!(
        box_spec(b"box text a\n"),
        Done(&b""[..], BlockSpec::Boxed("a".to_owned(), Coloring::Default, "".to_owned()))
    );
    assert_eq!(
        box_spec("box text a color green\n\u{a0}gr\u{fc}n \u{3000}".as_bytes()),
        Done(&b""[..], BlockSpec::Boxed("a".to_owned(), Coloring::Green, "gr\u{fc}n".to_owned()))
    );
    assert_eq!(box_spec(b"box text a"), Parsed::Error);
    assert_eq!(box_spec(b"box text a color\ntext"), Parsed::Error);
    assert_eq!(box_spec(b"box a\ntext"), Parsed::Error);
    assert_eq!(box_spec(b"boxtext a\ntext"), Parsed::Error);
    assert_eq!(box_spec(b"box text a\n\xff\xfe"), Parsed::Error);
    assert_eq!(box_spec(b"box text a\r text"), Parsed::Error);
}

#[test]
fn white_space_is_trimmed_at_both_ends() {
    assert_eq!(trim_text("  a b  "), "a b");
    assert_eq!(trim_text("\t\n\u{b}\u{c}\r x \u{85}\u{a0}\u{1680}\u{2000}\u{200a}\u{2028}\u{2029}\u{202f}\u{205f}\u{3000}"), "x");
    assert_eq!(trim_text(""), "");
    assert_eq!(trim_text(" \t "), "");
    assert_eq!(trim_text("x"), "x");
    assert_eq!(trim_text("\u{200b}x\u{200b}"), "\u{200b}x\u{200b}");
    for c in ['\u{9}', '\u{d}', ' ', '\u{85}', '\u{a0}', '\u{1680}', '\u{2005}', '\u{3000}'] {
        assert!(is_whitespace(c));
    }
    for c in ['a', '\u{8}', '\u{e}', '\u{200b}', '\u{180e}', '\u{feff}'] {
        assert!(!is_whitespace(c));
    }
    for code in 0..0x3100u32 {
        if let Some(c) = char::from_u32(code) {
            assert_eq!(is_whitespace(c), c.is_whitespace(), "U+{:04X}", code);
        }
    }
}

#[test]
fn records_and_separators() {
    assert_eq!(
        data_spec(b"box text a\nA"),
        Done(
            &b""[..],
            DataSpec::BlockDataSpec(BlockSpec::Boxed(
                "a".to_owned(),
                Coloring::Default,
                "A".to_owned()
            ))
        )
    );
    assert_eq!(
        data_spec(b"connection a b"),
        Done(
            &b""[..],
            DataSpec::ConnectionDataSpec(ConnectionSpec {
                ty: ConnectionType::Generic,
                start: "a".to_owned(),
                end: "b".to_owned(),
                color: Coloring::Default
            })
        )
    );
    assert_eq!(data_spec(b"circle a"), Parsed::Error);
    assert_eq!(eol_space_spec(b"\n"), Done(&b""[..], ()));
    assert_eq!(eol_space_spec(b"  \n\t\r\n\n  x"), Done(&b"  x"[..], ()));
    assert_eq!(eol_space_spec(b"  x\n"), Parsed::Error);
    assert_eq!(eol_space_spec(b"\r"), Parsed::Error);
    assert_eq!(eol_space_spec(b""), Parsed::Error);
}

fn sample() -> Vec<DataSpec> {
    vec![
        DataSpec::BlockDataSpec(BlockSpec::Boxed(
            "a".to_owned(),
            Coloring::Red,
            "The first block".to_owned(),
        )),
        DataSpec::BlockDataSpec(BlockSpec::Boxed(
            "b".to_owned(),
            Coloring::Default,
            "The second".to_owned(),
        )),
        DataSpec::ConnectionDataSpec(ConnectionSpec {
            ty: ConnectionType::Dual,
            start: "a".to_owned(),
            end: "b".to_owned(),
            color: Coloring::Blue,
        }),
        DataSpec::ConnectionDataSpec(ConnectionSpec {
            ty: ConnectionType::Generic,
            start: "b".to_owned(),
            end: "b".to_owned(),
            color: Coloring::Default,
        }),
    ]
}

#[test]
fn a_description_is_a_list_of_records() {
    let text = b"box text a color red\nThe first block\n\n  box text b\n  The second  \ndual connection a b color blue\n \t\nconnection b b";
    assert_eq!(full_graph_spec(text), (&b""[..], sample()));
    assert_eq!(read_to_specification(text), Ok(sample()));
    assert_eq!(full_graph_spec(b""), (&b""[..], vec![]));
    assert_eq!(read_to_specification(b""), Ok(vec![]));
}

#[test]
fn text_that_is_left_over_is_an_error() {
    let mut text = b"box text a color red\nThe first block\n\n  box text b\n  The second  \ndual connection a b color blue\n \t\nconnection b b".to_vec();
    text.extend_from_slice(b"\n");
    // the records are read, the last line end is left over
    assert_eq!(full_graph_spec(&text), (&b"\n"[..], sample()));
    assert_eq!(read_to_specification(&text), Err(ParserError::NotAllParsed));
    assert_eq!(read_to_specification(b"nonsense"), Err(ParserError::NotAllParsed));
    assert_eq!(full_graph_spec(b"nonsense"), (&b"nonsense"[..], vec![]));
    assert_eq!(read_to_specification(b"connection a b connection c d"), Err(ParserError::NotAllParsed));
    assert_eq!(read_to_specification(b"\nconnection a b"), Err(ParserError::NotAllParsed));
}

#[test]
fn errors_say_what_went_wrong() {
    assert_eq!(ParserError::NotAllParsed.description(), "parsing failed as not all input was parsed");
    assert_eq!(
        ParserError::IoErr("file not found".to_owned()).description(),
        "parsing failed due to an I/O error"
    );
    assert_eq!(ParserError::NotAllParsed.cause(), None);
    assert_eq!(
        ParserError::IoErr("file not found".to_owned()).cause(),
        Some("file not found".to_owned())
    );
}
