use callgrind::document::{
    callgrind, creator, default_version, format_spec, format_version, parse, part_data,
};
use callgrind::error::{malformed, ErrorKind, ParseError, Rule};
use callgrind::model::{
    BodyLine, CallgrindEntry, CallgrindFile, CostLine, HeaderLine, InheritedExpr, Position,
    PositionType, SubDirection, SubPosition,
};

fn failed(rule: Rule, offset: usize) -> ParseError {
    ParseError { kind: ErrorKind::Malformed, rule, offset }
}

fn trailing(offset: usize) -> ParseError {
    ParseError { kind: ErrorKind::TrailingData, rule: Rule::Document, offset }
}

fn string(s: &str) -> String {
    s.to_string()
}

fn cost(positions: Vec<SubPosition>, costs: Option<Vec<u32>>) -> CostLine {
    CostLine { positions, costs }
}

#[test]
fn default_version_is_one() {
    assert_eq!(default_version(None), 1);
    assert_eq!(default_version(Some(0)), 0);
    assert_eq!(default_version(Some(3)), 3);
}

#[test]
fn error_constructor_names_rule_and_offset() {
    assert_eq!(malformed(Rule::Number, 4), failed(Rule::Number, 4));
}

#[test]
fn lines_before_the_first_part() {
    assert_eq!(format_spec(b"# callgrind format\n", 0), Ok(19));
    assert_eq!(format_spec(b"# callgrind format", 0), Err(failed(Rule::FormatSpec, 0)));
    assert_eq!(format_spec(b"#callgrind format\n", 0), Err(failed(Rule::FormatSpec, 0)));
    assert_eq!(format_version(b"version: 1\n", 0), Ok((1, 11)));
    assert_eq!(format_version(b"version:2\n", 0), Ok((2, 10)));
    assert_eq!(format_version(b"version: 1", 0), Err(failed(Rule::FormatVersion, 0)));
    assert_eq!(format_version(b"version: one\n", 0), Err(failed(Rule::FormatVersion, 0)));
    assert_eq!(creator(b"creator: callgrind-3.22\n", 0), Ok((string(" callgrind-3.22"), 24)));
    assert_eq!(creator(b"creator:\n", 0), Ok((String::new(), 9)));
    assert_eq!(creator(b"creator: x", 0), Err(failed(Rule::Creator, 0)));
    assert_eq!(creator(b"cmd: x\n", 0), Err(failed(Rule::Creator, 0)));
}

#[test]
fn a_part_needs_header_and_body() {
    assert_eq!(
        part_data(b"cmd: a\n1 2\n", 0),
        Ok((
            CallgrindEntry {
                header: vec![HeaderLine::Cmd(string("a"))],
                body: vec![BodyLine::Cost(cost(vec![SubPosition::Absolute(1)], Some(vec![2])))],
            },
            11
        ))
    );
    assert_eq!(part_data(b"cmd: a\n", 0), Err(failed(Rule::PartData, 0)));
    assert_eq!(part_data(b"1 2\n", 0), Err(failed(Rule::PartData, 0)));
    assert_eq!(part_data(b"cmd: a\n1 2", 0), Err(failed(Rule::PartData, 0)));
    assert_eq!(part_data(b"", 0), Err(failed(Rule::PartData, 0)));
}

#[test]
fn a_part_takes_the_blank_and_comment_lines_behind_it() {
    let input = b"cmd: a\n1 2\n\n# end\n  \n";
    let (part, end) = part_data(input, 0).unwrap();
    assert_eq!(end, input.len());
    assert_eq!(part.header.len(), 1);
    assert_eq!(part.body.len(), 1);
}

#[test]
fn whole_profile_with_every_kind_of_line() {
    let input = b"# callgrind format\n\
version: 1\n\
creator: callgrind-3.22.0\n\
\n\
pid: 1234\n\
thread: 1\n\
part: 1\n\
cmd: ./prog arg\n\
desc: I1: 32768 B, 64 B, 8-way associative\n\
# a comment\n\
positions: instr line\n\
event: Ir : Instruction Fetches\n\
event: Cy = 2*Ir + Dr\n\
events: Ir Dr\n\
\n\
ob=(1) /usr/bin/prog\n\
fl=(1) prog.c\n\
fn=(1) main\n\
0x400500 16 20 4\n\
+4 +1 3\n\
cfi=(2)\n\
cfn=(2) helper\n\
calls=1 0x400600 50\n\
* * 400 8\n\
jump=3 0x400520 18\n\
jcnd=2 5 -8 *\n\
\n\
# totals follow\n";
    let file = parse(input).unwrap();
    let abs = SubPosition::Absolute;
    let expected = CallgrindFile {
        version: 1,
        creator: Some(string(" callgrind-3.22.0")),
        data: vec![CallgrindEntry {
            header: vec![
                HeaderLine::Pid(1234),
                HeaderLine::Thread(1),
                HeaderLine::Part(1),
                HeaderLine::Cmd(string("./prog arg")),
                HeaderLine::Description(
                    string("I1"),
                    string(" 32768 B, 64 B, 8-way associative"),
                ),
                HeaderLine::Positions(true, true),
                HeaderLine::EventSpec(string("Ir"), None, Some(string("Instruction Fetches"))),
                HeaderLine::EventSpec(
                    string("Cy"),
                    Some(vec![
                        InheritedExpr::Mul(2, string("Ir")),
                        InheritedExpr::Name(string("Dr")),
                    ]),
                    None,
                ),
                HeaderLine::Events(vec![string("Ir"), string("Dr")]),
            ],
            body: vec![
                BodyLine::PositionSpec(
                    PositionType::Object,
                    Position { id: Some(1), val: Some(string("/usr/bin/prog")) },
                ),
                BodyLine::PositionSpec(
                    PositionType::File,
                    Position { id: Some(1), val: Some(string("prog.c")) },
                ),
                BodyLine::PositionSpec(
                    PositionType::Function,
                    Position { id: Some(1), val: Some(string("main")) },
                ),
                BodyLine::Cost(cost(vec![abs(0x400500)], Some(vec![16, 20, 4]))),
                BodyLine::Cost(cost(
                    vec![
                        SubPosition::Relative(SubDirection::Plus, 4),
                        SubPosition::Relative(SubDirection::Plus, 1),
                    ],
                    Some(vec![3]),
                )),
                BodyLine::PositionSpec(PositionType::CallFile, Position { id: Some(2), val: None }),
                BodyLine::PositionSpec(
                    PositionType::CallFunction,
                    Position { id: Some(2), val: Some(string("helper")) },
                ),
                BodyLine::CallSpec(
                    1,
                    vec![abs(0x400600), abs(50)],
                    cost(vec![SubPosition::Same, SubPosition::Same], Some(vec![400, 8])),
                ),
                BodyLine::UncondJumpSpec(3, vec![abs(0x400520), abs(18)]),
                BodyLine::CondJumpSpec(
                    2,
                    5,
                    vec![SubPosition::Relative(SubDirection::Minus, 8), SubPosition::Same],
                ),
            ],
        }],
    };
    assert_eq!(file, expected);
}

#[test]
fn parts_come_in_the_order_of_the_text() {
    let input = b"version: 2\npart: 1\n1 10\npart: 2\n2 20\n\npart: 3\n3 30\n";
    let file = parse(input).unwrap();
    assert_eq!(file.version, 2);
    assert_eq!(file.creator, None);
    let parts: Vec<HeaderLine> = file.data.iter().map(|p| p.header[0].clone()).collect();
    assert_eq!(parts, vec![HeaderLine::Part(1), HeaderLine::Part(2), HeaderLine::Part(3)]);
    let costs: Vec<BodyLine> = file.data.iter().map(|p| p.body[0].clone()).collect();
    assert_eq!(
        costs,
        vec![
            BodyLine::Cost(cost(vec![SubPosition::Absolute(1)], Some(vec![10]))),
            BodyLine::Cost(cost(vec![SubPosition::Absolute(2)], Some(vec![20]))),
            BodyLine::Cost(cost(vec![SubPosition::Absolute(3)], Some(vec![30]))),
        ]
    );
}

#[test]
fn written_profile_parses_back() {
    let expected = CallgrindFile {
        version: 7,
        creator: Some(string("tool 1.0")),
        data: vec![
            CallgrindEntry {
                header: vec![
                    HeaderLine::Cmd(string("./a")),
                    HeaderLine::Pid(12),
                    HeaderLine::Description(string("key"), string(" value")),
                    HeaderLine::EventSpec(
                        string("Sum"),
                        Some(vec![
                            InheritedExpr::Mul(3, string("Ir")),
                            InheritedExpr::Name(string("Dr")),
                        ]),
                        Some(string("weighted")),
                    ),
                    HeaderLine::Events(vec![string("Ir"), string("Dr")]),
                    HeaderLine::Positions(true, false),
                ],
                body: vec![
                    BodyLine::PositionSpec(
                        PositionType::Function,
                        Position { id: Some(1), val: Some(string("main")) },
                    ),
                    BodyLine::Cost(cost(
                        vec![SubPosition::Absolute(5), SubPosition::Same],
                        Some(vec![9, 8]),
                    )),
                    BodyLine::CallSpec(
                        2,
                        vec![SubPosition::Relative(SubDirection::Plus, 1)],
                        cost(vec![SubPosition::Absolute(6)], None),
                    ),
                ],
            },
            CallgrindEntry {
                header: vec![HeaderLine::Thread(2)],
                body: vec![BodyLine::CondJumpSpec(
                    1,
                    2,
                    vec![SubPosition::Relative(SubDirection::Minus, 3)],
                )],
            },
        ],
    };
    let written = b"version: 7\n\
creator:tool 1.0\n\
cmd: ./a\n\
pid: 12\n\
desc: key: value\n\
event: Sum = 3 * Ir + Dr: weighted\n\
events: Ir Dr\n\
positions: instr\n\
fn=(1) main\n\
5 * 9 8\n\
calls=2 +1\n\
6\n\
thread: 2\n\
jcnd=1 2 -3\n";
    assert_eq!(parse(written), Ok(expected.clone()));
    let mut with_garbage = written.to_vec();
    with_garbage.extend_from_slice(b"garbage\n");
    assert_eq!(parse(&with_garbage), Err(trailing(written.len())));
    assert_eq!(callgrind(&with_garbage), (expected, written.len()));
}

#[test]
fn buffer_without_final_newline_is_no_profile() {
    assert_eq!(parse(b"cmd: a\n1 2"), Err(trailing(0)));
    assert_eq!(parse(b"version: 1"), Err(trailing(0)));
    assert_eq!(parse(b"version: 1\ncmd: a\n1 2\n3"), Err(trailing(22)));
    assert_eq!(parse(b"x"), Err(trailing(0)));
}

#[test]
fn leftover_lines_are_trailing_data() {
    assert_eq!(parse(b"version: 1\ncmd: a\n"), Err(trailing(11)));
    assert_eq!(parse(b"cmd: a\n1 2\ncalls=1 1\n"), Err(trailing(11)));
    assert_eq!(parse(b"cmd: a\n4294967296\n"), Err(trailing(0)));
    assert_eq!(parse(b"cmd: a\n1 2\n%%%\n"), Err(trailing(11)));
    assert_eq!(parse(b"\n"), Err(trailing(0)));
    assert_eq!(parse(b"version: 1\n# c\n"), Err(trailing(11)));
}

#[test]
fn callgrind_reports_where_it_stopped() {
    let (file, end) = callgrind(b"creator: x\nrest");
    assert_eq!(end, 11);
    assert_eq!(file, CallgrindFile { version: 1, creator: Some(string(" x")), data: vec![] });
    let (file, end) = callgrind(b"# callgrind format\nversion: 3\n");
    assert_eq!(end, 30);
    assert_eq!(file, CallgrindFile { version: 3, creator: None, data: vec![] });
}

#[test]
fn document_rules_behind_the_buffer() {
    assert_eq!(part_data(b"cmd: a\n0 1\n", 20), Err(failed(Rule::PartData, 20)));
    assert_eq!(format_spec(b"# callgrind format\n", 19), Err(failed(Rule::FormatSpec, 19)));
    assert_eq!(format_version(b"version: 1\n", 12), Err(failed(Rule::FormatVersion, 12)));
    assert_eq!(creator(b"creator: x\n", 12), Err(failed(Rule::Creator, 12)));
}
