use puzzle_tools::regex::parse::Element::{AnyOf, Group, Literal, Optional, Repeat, Wildcard};
use puzzle_tools::regex::parse::{pattern, whole_pattern, Pattern};

#[test]
fn parse_simple_regex() {
    assert_eq!(
        pattern("asdf").unwrap().1,
        Pattern { elements: vec![Literal('a'), Literal('s'), Literal('d'), Literal('f')] }
    )
}

#[test]
fn parse_with_set() {
    assert_eq!(
        pattern("asd[gh]f").unwrap().1,
        Pattern {
            elements: vec![
                Literal('a'),
                Literal('s'),
                Literal('d'),
                AnyOf(vec!['g', 'h']),
                Literal('f')
            ],
        }
    )
}

#[test]
fn parse_with_group() {
    assert_eq!(
        pattern("xy(as|df)").unwrap().1,
        Pattern {
            elements: vec![
                Literal('x'),
                Literal('y'),
                Group(vec![
                    Pattern { elements: vec![Literal('a'), Literal('s')] },
                    Pattern { elements: vec![Literal('d'), Literal('f')] },
                ])
            ],
        }
    )
}

#[test]
fn parse_with_star() {
    assert_eq!(
        pattern("xyb*").unwrap().1,
        Pattern { elements: vec![Literal('x'), Literal('y'), Repeat(Box::from(Literal('b')))] }
    );

    assert_eq!(
        pattern("xy(foo)*").unwrap().1,
        Pattern {
            elements: vec![
                Literal('x'),
                Literal('y'),
                Repeat(Box::new(Group(vec![pattern("foo").unwrap().1]))),
            ]
        }
    );

    assert_eq!(
        pattern("xyb*(foo)*").unwrap().1,
        Pattern {
            elements: vec![
                Literal('x'),
                Literal('y'),
                Repeat(Box::new(Literal('b'))),
                Repeat(Box::new(Group(vec![pattern("foo").unwrap().1])))
            ]
        }
    );
}

#[test]
fn parse_with_question() {
    assert_eq!(
        pattern("xy(foo)?").unwrap().1,
        Pattern {
            elements: vec![
                Literal('x'),
                Literal('y'),
                Optional(Box::new(Group(vec![pattern("foo").unwrap().1]))),
            ]
        }
    )
}

#[test]
fn the_parser_stops_where_no_element_begins() {
    let (rest, parsed) = pattern("ab)cd").unwrap();
    assert_eq!(rest, ")cd");
    assert_eq!(parsed, Pattern { elements: vec![Literal('a'), Literal('b')] });
    assert_eq!(pattern("").unwrap_err().position, 0);
    assert_eq!(pattern("*a").unwrap_err().position, 0);
    assert_eq!(whole_pattern("ab)cd").unwrap_err().position, 2);
    assert_eq!(whole_pattern("(a|)").unwrap_err().position, 0);
}

#[test]
fn wildcards_escapes_and_suffixes() {
    assert_eq!(
        whole_pattern(".\\.[a\\]]?").unwrap(),
        Pattern {
            elements: vec![Wildcard, Literal('.'), Optional(Box::new(AnyOf(vec!['a', ']'])))]
        }
    );
    // a wildcard takes no suffix: the star is left over
    let (rest, parsed) = pattern(".*").unwrap();
    assert_eq!(rest, "*");
    assert_eq!(parsed, Pattern { elements: vec![Wildcard] });
    // only ASCII letters and digits are literals as they stand
    assert!(pattern("é").is_err());
    assert!(pattern("-").is_err());
    assert_eq!(pattern("a9Z").unwrap().1.elements.len(), 3);
}
