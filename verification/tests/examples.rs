use callgrind::body::{body_line, call_spec, cost_line, position_spec, sub_position_list};
use callgrind::header::header_line;
use callgrind::{
    callgrind, parse, BodyLine, CallgrindEntry, CallgrindFile, CostLine, ErrorKind, HeaderLine,
    InheritedExpr, ParseError, Position, PositionType, Rule, SubDirection, SubPosition,
};

fn text(s: &str) -> String {
    s.to_string()
}

#[test]
fn missing_version_line_defaults_to_one() {
    let file = parse(b"creator: prog\ncmd: ./a\n0 10\n").unwrap();
    assert_eq!(file.version, 1);
    let empty = parse(b"").unwrap();
    assert_eq!(empty.version, 1);
    assert_eq!(empty.creator, None);
    assert!(empty.data.is_empty());
}

#[test]
fn events_declaration_lists_the_names() {
    let input = b"events: Ir Dr Dw\n";
    let (line, end) = header_line(input, 0).unwrap();
    assert_eq!(line, HeaderLine::Events(vec![text("Ir"), text("Dr"), text("Dw")]));
    assert_eq!(end, input.len() - 1);
}

#[test]
fn positions_declaration_flags() {
    let (both, end) = header_line(b"positions: instr line\n", 0).unwrap();
    assert_eq!(both, HeaderLine::Positions(true, true));
    assert_eq!(end, 21);
    let (none, end) = header_line(b"positions:\n", 0).unwrap();
    assert_eq!(none, HeaderLine::Positions(false, false));
    assert_eq!(end, 10);
    let (instr, end) = header_line(b"positions: instr\n", 0).unwrap();
    assert_eq!(instr, HeaderLine::Positions(true, false));
    assert_eq!(end, 16);
}

#[test]
fn sub_position_list_compression() {
    let input = b"0 +5 * -2\n";
    let (items, end) = sub_position_list(input, 0).unwrap();
    assert_eq!(
        items,
        vec![
            SubPosition::Absolute(0),
            SubPosition::Relative(SubDirection::Plus, 5),
            SubPosition::Same,
            SubPosition::Relative(SubDirection::Minus, 2),
        ]
    );
    assert_eq!(end, 9);
}

#[test]
fn minimal_file() {
    let file = parse(b"version: 1\ncreator: prog\ncmd: ./a\nevents: Ir\n0 10\n").unwrap();
    assert_eq!(
        file,
        CallgrindFile {
            version: 1,
            creator: Some(text(" prog")),
            data: vec![CallgrindEntry {
                header: vec![HeaderLine::Cmd(text("./a")), HeaderLine::Events(vec![text("Ir")])],
                body: vec![BodyLine::Cost(CostLine {
                    positions: vec![SubPosition::Absolute(0)],
                    costs: Some(vec![10]),
                })],
            }],
        }
    );
}

#[test]
fn call_record_owns_its_cost_line() {
    let input = b"calls=3 0\n0 7\n";
    let (line, end) = call_spec(input, 0).unwrap();
    let expected = BodyLine::CallSpec(
        3,
        vec![SubPosition::Absolute(0)],
        CostLine { positions: vec![SubPosition::Absolute(0)], costs: Some(vec![7]) },
    );
    assert_eq!(line, expected);
    assert_eq!(end, 13);
    let (line, end) = body_line(input, 0).unwrap();
    assert_eq!(line, expected);
    assert_eq!(end, 13);
}

#[test]
fn name_compression() {
    let (line, end) = position_spec(b"fn=(5) main\n", 0).unwrap();
    assert_eq!(
        line,
        BodyLine::PositionSpec(
            PositionType::Function,
            Position { id: Some(5), val: Some(text("main")) }
        )
    );
    assert_eq!(end, 11);
    let (line, end) = position_spec(b"fn=(5)\n", 0).unwrap();
    assert_eq!(
        line,
        BodyLine::PositionSpec(PositionType::Function, Position { id: Some(5), val: None })
    );
    assert_eq!(end, 6);
}

#[test]
fn inherited_event() {
    let (line, end) = header_line(b"event: Cyc = 2 * Ir + Dr\n", 0).unwrap();
    assert_eq!(
        line,
        HeaderLine::EventSpec(
            text("Cyc"),
            Some(vec![InheritedExpr::Mul(2, text("Ir")), InheritedExpr::Name(text("Dr"))]),
            None
        )
    );
    assert_eq!(end, 24);
}

#[test]
fn garbage_behind_a_profile_is_trailing_data() {
    let valid = b"version: 1\ncreator: prog\ncmd: ./a\nevents: Ir\n0 10\n";
    let mut input = valid.to_vec();
    input.extend_from_slice(b"garbage");
    assert_eq!(
        parse(&input),
        Err(ParseError { kind: ErrorKind::TrailingData, rule: Rule::Document, offset: valid.len() })
    );
    let mut input = valid.to_vec();
    input.extend_from_slice(b"!!\n");
    assert_eq!(
        parse(&input),
        Err(ParseError { kind: ErrorKind::TrailingData, rule: Rule::Document, offset: valid.len() })
    );
    let (file, end) = callgrind(&input);
    assert_eq!(end, valid.len());
    assert_eq!(file.data.len(), 1);
}

#[test]
fn cost_line_without_cost_values() {
    let (line, end) = cost_line(b"+3 *\n", 0).unwrap();
    assert_eq!(
        line,
        CostLine {
            positions: vec![SubPosition::Relative(SubDirection::Plus, 3), SubPosition::Same],
            costs: None
        }
    );
    assert_eq!(end, 4);
}

#[test]
fn garbage_behind_any_profile_is_trailing_data() {
    let valid: &[u8] = b"# callgrind format\nversion:0x2\n\n# header\npart:\t7\n\n+0x10  *\t5\n# end\n\n";
    let file = parse(valid).unwrap();
    assert_eq!(file.version, 2);
    assert_eq!(file.data.len(), 1);
    for garbage in [&b"%"[..], b"garbage", b"!\n", b"x y z\n\n", b"Zed: 1\n0 1\n"] {
        let mut input = valid.to_vec();
        input.extend_from_slice(garbage);
        assert_eq!(
            parse(&input),
            Err(ParseError {
                kind: ErrorKind::TrailingData,
                rule: Rule::Document,
                offset: valid.len()
            })
        );
        assert_eq!(callgrind(&input), (file.clone(), valid.len()));
    }
}

#[test]
fn lines_behind_a_profile_that_belong_to_it_are_read() {
    let valid = b"cmd: a\n0 1\n";
    let mut input = valid.to_vec();
    input.extend_from_slice(b"2 3\n");
    let file = parse(&input).unwrap();
    assert_eq!(file.data[0].body.len(), 2);
}
