use stylesheet_parser::dom::{elem, text, AttrMap, NodeType};
use stylesheet_parser::parser::Parser;
use stylesheet_parser::parser_css::{
    parse, Argument, Color, CssParser, Number, ParseError, Selector, SimpleSelector, Unit, Value,
};

fn px(mantissa: u64, scale: usize) -> Value {
    Value::Size(Number { mantissa, scale }, Unit::Px)
}

#[test]
fn parsing_keyword_arguments() {
    let input = String::from("display: flex;}");
    let mut css_parser = CssParser { pos: 0, input };
    let arg = css_parser.parse_argument().unwrap();
    let output = Argument {
        entries: vec![(String::from("display"), Value::Keyword("flex".to_string()))],
    };
    assert_eq!(arg, output);
}

#[test]
fn parsing_color_arguments() {
    let input = String::from("color: (200,189,200);}");
    let mut css_parser = CssParser { pos: 0, input };
    let arg = css_parser.parse_argument().unwrap();
    let op_color = Color { r: 200, g: 189, b: 200 };
    let output = Argument { entries: vec![(String::from("color"), Value::ColorValue(op_color))] };
    assert_eq!(arg, output);
}

#[test]
fn parsing_size_arguments() {
    let input = String::from("width: 20px;}");
    let mut css_parser = CssParser { pos: 0, input };
    let arg = css_parser.parse_argument().unwrap();
    let output = Argument { entries: vec![(String::from("width"), px(20, 0))] };
    assert_eq!(arg, output);
}

#[test]
fn parsing_key() {
    let input = String::from("display: flex;");
    let mut css_parser = CssParser { pos: 0, input };
    let key = css_parser.parse_key();
    assert_eq!(key, String::from("display"))
}

#[test]
fn parsing_keyword_value() {
    let input = String::from(": flex;");
    let mut css_parser = CssParser { pos: 0, input };
    let value = css_parser.parse_value();
    assert_eq!(value, Ok(Value::Keyword(String::from("flex"))))
}

#[test]
fn parsing_color_value() {
    let input = String::from(": (200,189,200);");
    let mut css_parser = CssParser { pos: 0, input };
    let value = css_parser.parse_value();
    let op_color = Color { r: 200, g: 189, b: 200 };
    assert_eq!(value, Ok(Value::ColorValue(op_color)));
}

#[test]
fn parsing_size_value() {
    let input = String::from(": 20px;");
    let mut css_parser = CssParser { pos: 0, input };
    let value = css_parser.parse_value();
    assert_eq!(value, Ok(px(20, 0)));
}

#[test]
fn declaration_without_trailing_brace() {
    let mut p = CssParser { pos: 0, input: String::from("display: flex;") };
    let arg = p.parse_argument().unwrap();
    assert_eq!(
        arg,
        Argument { entries: vec![(String::from("display"), Value::Keyword(String::from("flex")))] }
    );
    assert_eq!(p.pos, 14);
}

#[test]
fn keyword_after_extra_whitespace() {
    let mut p = CssParser { pos: 0, input: String::from("  display:\t\n  block;") };
    let arg = p.parse_argument().unwrap();
    assert_eq!(
        arg,
        Argument { entries: vec![(String::from("display"), Value::Keyword(String::from("block")))] }
    );
}

#[test]
fn decimal_size() {
    let mut p = CssParser { pos: 0, input: String::from(": 12.25px;") };
    assert_eq!(p.parse_value(), Ok(px(1225, 2)));
    assert_eq!(p.pos, 9);
}

#[test]
fn size_without_unit() {
    let mut p = CssParser { pos: 0, input: String::from(": 7;") };
    assert_eq!(p.parse_value(), Ok(px(7, 0)));
}

#[test]
fn malformed_size() {
    let mut p = CssParser { pos: 0, input: String::from(": 1x2px;") };
    assert_eq!(p.parse_value(), Err(ParseError::LiteralConversionFailure));
}

#[test]
fn malformed_color_component() {
    let mut p = CssParser { pos: 0, input: String::from(": (abc,0,0);") };
    assert_eq!(p.parse_value(), Err(ParseError::LiteralConversionFailure));
}

#[test]
fn color_component_out_of_range() {
    let mut p = CssParser { pos: 0, input: String::from(": (256,0,0);") };
    assert_eq!(p.parse_value(), Err(ParseError::LiteralConversionFailure));
    let mut q = CssParser { pos: 0, input: String::from(": (255,+7,0);") };
    assert_eq!(q.parse_value(), Ok(Value::ColorValue(Color { r: 255, g: 7, b: 0 })));
}

#[test]
fn unterminated_color() {
    let mut p = CssParser { pos: 0, input: String::from(": (1,2,3") };
    assert_eq!(p.parse_value(), Err(ParseError::EndOfInput));
}

#[test]
fn unexpected_value_character() {
    let mut p = CssParser { pos: 0, input: String::from(": ;") };
    assert_eq!(p.parse_value(), Err(ParseError::GrammarViolation(';', 2)));
}

#[test]
fn value_at_end_of_input() {
    let mut p = CssParser { pos: 0, input: String::new() };
    assert_eq!(p.parse_value(), Err(ParseError::EndOfInput));
    let mut q = CssParser { pos: 0, input: String::from(":   ") };
    assert_eq!(q.parse_value(), Err(ParseError::EndOfInput));
}

#[test]
fn pairs_before_one_semicolon_share_a_mapping() {
    let mut p = CssParser { pos: 0, input: String::from("a: (1,2,3)b: (4,5,6)a: (7,8,9);") };
    let arg = p.parse_argument().unwrap();
    assert_eq!(
        arg,
        Argument {
            entries: vec![
                (String::from("a"), Value::ColorValue(Color { r: 7, g: 8, b: 9 })),
                (String::from("b"), Value::ColorValue(Color { r: 4, g: 5, b: 6 })),
            ],
        }
    );
}

#[test]
fn key_stops_at_first_other_character() {
    let mut p = CssParser { pos: 0, input: String::from("font-size_2X!rest") };
    assert_eq!(p.parse_key(), String::from("font-size_2X"));
    assert_eq!(p.pos, 12);
    let mut q = CssParser { pos: 0, input: String::from(":x") };
    assert_eq!(q.parse_key(), String::new());
    assert_eq!(q.pos, 0);
}

#[test]
fn empty_stylesheet() {
    assert_eq!(parse(String::new()).unwrap().rules.len(), 0);
    assert_eq!(parse(String::from("  \n\t  ")).unwrap().rules.len(), 0);
}

#[test]
fn stylesheet_with_two_rules() {
    let sheet = parse(String::from("h1{ color: (1,2,3); width: 12px; }\n#main{display: none;}")).unwrap();
    assert_eq!(sheet.rules.len(), 2);
    let first = &sheet.rules[0];
    assert_eq!(
        first.selectors,
        vec![Selector::Simple(SimpleSelector {
            html_tag: Some(String::from("h1")),
            id: None,
            class: vec![],
        })]
    );
    assert_eq!(
        first.arguments,
        vec![
            Argument {
                entries: vec![(String::from("color"), Value::ColorValue(Color { r: 1, g: 2, b: 3 }))],
            },
            Argument { entries: vec![(String::from("width"), px(12, 0))] },
        ]
    );
    let second = &sheet.rules[1];
    assert_eq!(
        second.selectors,
        vec![Selector::Simple(SimpleSelector {
            html_tag: None,
            id: Some(String::from("main")),
            class: vec![],
        })]
    );
}

#[test]
fn universal_selector_is_empty() {
    let sheet = parse(String::from("*{}")).unwrap();
    assert_eq!(
        sheet.rules[0].selectors,
        vec![Selector::Simple(SimpleSelector { html_tag: None, id: None, class: vec![] })]
    );
    assert_eq!(sheet.rules[0].arguments, vec![]);
}

#[test]
fn class_marker_needs_brace() {
    assert_eq!(parse(String::from(".a{}")), Err(ParseError::StructuralAssertionFailure));
    let mut p = CssParser { pos: 0, input: String::from(".{x{") };
    assert_eq!(
        p.parse_simple_selector(),
        Ok(SimpleSelector { html_tag: None, id: None, class: vec![String::from("x")] })
    );
    assert_eq!(p.pos, 3);
}

#[test]
fn invalid_character_after_selector() {
    let mut p = CssParser { pos: 0, input: String::from("*;") };
    assert_eq!(p.parse_selectors(), Err(ParseError::GrammarViolation(';', 1)));
}

#[test]
fn unterminated_rule() {
    assert_eq!(parse(String::from("p{ a: b;")), Err(ParseError::EndOfInput));
}

#[test]
fn scanner_primitives() {
    let mut p = CssParser { pos: 0, input: String::from("ab  c") };
    assert!(p.starts_with("ab"));
    assert!(!p.starts_with("abc"));
    assert_eq!(p.next_char(), 'a');
    assert_eq!(p.consume_char(), 'a');
    assert_eq!(p.consume_while(|c| c != ' '), String::from("b"));
    p.consume_whitespace();
    assert_eq!(p.pos, 4);
    assert!(!p.eof());
    assert_eq!(p.consume_char(), 'c');
    assert!(p.eof());
}

#[test]
fn dom_constructors() {
    let t = text(String::from("hi"));
    assert!(t.children.is_empty());
    assert!(matches!(t.node_type, NodeType::Text(ref s) if s == "hi"));
    let e = elem(String::from("div"), AttrMap::new(), vec![t]);
    assert_eq!(e.children.len(), 1);
    assert!(matches!(e.node_type, NodeType::Element(ref d) if d.tag_name == "div"));
}

#[test]
fn fraction_with_leading_zeros() {
    let mut p = CssParser { pos: 0, input: String::from(": 0.05px;") };
    assert_eq!(p.parse_value(), Ok(px(5, 2)));
}

#[test]
fn keyword_declaration_maps_key_to_keyword() {
    let mut p = CssParser { pos: 0, input: String::from("align-items: center;") };
    let arg = p.parse_argument().unwrap();
    assert_eq!(
        arg,
        Argument {
            entries: vec![(String::from("align-items"), Value::Keyword(String::from("center")))],
        }
    );
    assert!(p.eof());
}

#[test]
fn color_declaration_extremes() {
    let mut p = CssParser { pos: 0, input: String::from("c: (0,255,9);") };
    let arg = p.parse_argument().unwrap();
    assert_eq!(
        arg,
        Argument {
            entries: vec![(String::from("c"), Value::ColorValue(Color { r: 0, g: 255, b: 9 }))],
        }
    );
}

#[test]
fn largest_size_magnitude() {
    let mut p = CssParser { pos: 0, input: String::from(": 18446744073709551615px;") };
    assert_eq!(p.parse_value(), Ok(px(u64::MAX, 0)));
    let mut q = CssParser { pos: 0, input: String::from(": 18446744073709551616px;") };
    assert_eq!(q.parse_value(), Err(ParseError::LiteralConversionFailure));
}

#[test]
fn non_ascii_keyword() {
    let mut p = CssParser { pos: 0, input: String::from(": élan;") };
    assert_eq!(p.parse_value(), Ok(Value::Keyword(String::from("élan"))));
    assert_eq!(p.pos, 6);
}

#[test]
fn keyword_declaration_with_surrounding_text() {
    let mut p = CssParser { pos: 0, input: String::from(" \n display:\t flex;color: red;") };
    let arg = p.parse_argument().unwrap();
    assert_eq!(
        arg,
        Argument { entries: vec![(String::from("display"), Value::Keyword(String::from("flex")))] }
    );
    assert_eq!(p.pos, 18);
}

#[test]
fn color_declaration_with_tail() {
    let mut p = CssParser { pos: 0, input: String::from("\tfg:(10,20,30);}") };
    let arg = p.parse_argument().unwrap();
    assert_eq!(
        arg,
        Argument {
            entries: vec![(String::from("fg"), Value::ColorValue(Color { r: 10, g: 20, b: 30 }))],
        }
    );
    assert_eq!(p.pos, 15);
}

#[test]
fn value_read_back_without_space() {
    let mut p = CssParser { pos: 0, input: String::from(":3.50px;") };
    assert_eq!(p.parse_value(), Ok(px(350, 2)));
    assert_eq!(p.pos, 7);
}

#[test]
fn parse_consumes_whole_input() {
    let sheet = parse(String::from("a{b: c;}  \n")).unwrap();
    assert_eq!(sheet.rules.len(), 1);
}
