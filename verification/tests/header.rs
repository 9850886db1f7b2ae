use callgrind::error::{ErrorKind, ParseError, Rule};
use callgrind::header::{
    cost_line_def, description, event_specification, header_line, inherited_def, inherited_expr,
    inherited_term, long_name_def, part_detail, target_command, target_id, target_spec,
};
use callgrind::model::{HeaderLine, InheritedExpr};

fn failed(rule: Rule, offset: usize) -> ParseError {
    ParseError { kind: ErrorKind::Malformed, rule, offset }
}

fn string(s: &str) -> String {
    s.to_string()
}

#[test]
fn command_line() {
    assert_eq!(target_command(b"cmd: ./a -x\n", 0), Ok((HeaderLine::Cmd(string("./a -x")), 11)));
    assert_eq!(target_command(b"cmd:ls\n", 0), Ok((HeaderLine::Cmd(string("ls")), 6)));
    assert_eq!(target_command(b"cmd:\n", 0), Ok((HeaderLine::Cmd(String::new()), 4)));
    assert_eq!(target_command(b"cmd: ls", 0), Err(failed(Rule::TargetCommand, 0)));
    assert_eq!(target_command(b"cmx: ls\n", 0), Err(failed(Rule::TargetCommand, 0)));
    assert_eq!(part_detail(b"cmd: ls\n", 0), Ok((HeaderLine::Cmd(string("ls")), 7)));
}

#[test]
fn id_lines() {
    assert_eq!(target_id(b"pid: 4242\n", 0), Ok((HeaderLine::Pid(4242), 9)));
    assert_eq!(target_id(b"thread:1\n", 0), Ok((HeaderLine::Thread(1), 8)));
    assert_eq!(target_id(b"part: \t0x10\n", 0), Ok((HeaderLine::Part(16), 11)));
    assert_eq!(part_detail(b"part: 3\n", 0), Ok((HeaderLine::Part(3), 7)));
    assert_eq!(target_spec(b": 5", 0), Ok((5, 3)));
    assert_eq!(target_spec(b"5", 0), Err(failed(Rule::TargetSpec, 0)));
    assert_eq!(target_id(b"pid 1\n", 0), Err(failed(Rule::TargetId, 0)));
    assert_eq!(target_id(b"pid: x\n", 0), Err(failed(Rule::TargetId, 0)));
    assert_eq!(target_id(b"pid: 4294967296\n", 0), Err(failed(Rule::TargetId, 0)));
    assert_eq!(part_detail(b"desc: a: b\n", 0), Err(failed(Rule::PartDetail, 0)));
}

#[test]
fn description_line() {
    assert_eq!(
        description(b"desc: Trigger: Program termination\n", 0),
        Ok((HeaderLine::Description(string("Trigger"), string(" Program termination")), 34))
    );
    assert_eq!(
        description(b"desc:I1 :x\n", 0),
        Ok((HeaderLine::Description(string("I1"), string("x")), 10))
    );
    assert_eq!(description(b"desc: I1 cache\n", 0), Err(failed(Rule::Description, 0)));
    assert_eq!(description(b"desc: 1: x\n", 0), Err(failed(Rule::Description, 0)));
    assert_eq!(description(b"desc: a: x", 0), Err(failed(Rule::Description, 0)));
}

#[test]
fn inherited_terms() {
    assert_eq!(inherited_term(b"Ir", 0), Ok((InheritedExpr::Name(string("Ir")), 2)));
    assert_eq!(inherited_term(b"2 * Ir", 0), Ok((InheritedExpr::Mul(2, string("Ir")), 6)));
    assert_eq!(inherited_term(b"10Dr+", 0), Ok((InheritedExpr::Mul(10, string("Dr")), 4)));
    assert_eq!(inherited_term(b"3 Dw", 0), Ok((InheritedExpr::Mul(3, string("Dw")), 4)));
    assert_eq!(inherited_term(b"3*\tDw", 0), Ok((InheritedExpr::Mul(3, string("Dw")), 5)));
    assert_eq!(inherited_term(b"3 * 4", 0), Err(failed(Rule::InheritedTerm, 0)));
    assert_eq!(inherited_term(b"* Ir", 0), Err(failed(Rule::InheritedTerm, 0)));
}

#[test]
fn inherited_expressions() {
    assert_eq!(
        inherited_expr(b"Ir + 10 Dr+100*Dw\n", 0),
        Ok((
            vec![
                InheritedExpr::Name(string("Ir")),
                InheritedExpr::Mul(10, string("Dr")),
                InheritedExpr::Mul(100, string("Dw")),
            ],
            17
        ))
    );
    assert_eq!(inherited_expr(b"Ir + \n", 0), Ok((vec![InheritedExpr::Name(string("Ir"))], 2)));
    assert_eq!(inherited_expr(b"Ir Dr", 0), Ok((vec![InheritedExpr::Name(string("Ir"))], 2)));
    assert_eq!(inherited_expr(b"+ Ir", 0), Err(failed(Rule::InheritedExpr, 0)));
    assert_eq!(
        inherited_def(b"= A+B", 0),
        Ok((vec![InheritedExpr::Name(string("A")), InheritedExpr::Name(string("B"))], 5))
    );
    assert_eq!(inherited_def(b"A+B", 0), Err(failed(Rule::InheritedDef, 0)));
    assert_eq!(inherited_def(b"= ", 0), Err(failed(Rule::InheritedDef, 0)));
}

#[test]
fn event_lines() {
    assert_eq!(
        event_specification(b"event: Ir\n", 0),
        Ok((HeaderLine::EventSpec(string("Ir"), None, None), 9))
    );
    assert_eq!(
        event_specification(b"event: Ir : Instruction Fetches\n", 0),
        Ok((HeaderLine::EventSpec(string("Ir"), None, Some(string("Instruction Fetches"))), 31))
    );
    assert_eq!(
        event_specification(b"event: Sum = Ir + 2 * Dr: Weighted sum\n", 0),
        Ok((
            HeaderLine::EventSpec(
                string("Sum"),
                Some(vec![InheritedExpr::Name(string("Ir")), InheritedExpr::Mul(2, string("Dr"))]),
                Some(string("Weighted sum"))
            ),
            38
        ))
    );
    assert_eq!(
        event_specification(b"event: Ir :\n", 0),
        Ok((HeaderLine::EventSpec(string("Ir"), None, Some(String::new())), 11))
    );
    assert_eq!(
        event_specification(b"event: A = B : c\n", 0),
        Ok((HeaderLine::EventSpec(string("A"), Some(vec![InheritedExpr::Name(string("B"))]), None), 12))
    );
    assert_eq!(event_specification(b"event: 1\n", 0), Err(failed(Rule::EventSpecification, 0)));
    assert_eq!(event_specification(b"events: Ir\n", 0), Err(failed(Rule::EventSpecification, 0)));
    assert_eq!(long_name_def(b": long\n", 0), Ok((string("long"), 6)));
    assert_eq!(long_name_def(b"long\n", 0), Err(failed(Rule::LongNameDef, 0)));
    assert_eq!(long_name_def(b": long", 0), Err(failed(Rule::LongNameDef, 0)));
}

#[test]
fn column_declarations() {
    assert_eq!(
        cost_line_def(b"events: Ir  Dr\tDw\n", 0),
        Ok((HeaderLine::Events(vec![string("Ir"), string("Dr"), string("Dw")]), 17))
    );
    assert_eq!(cost_line_def(b"events:Ir\n", 0), Ok((HeaderLine::Events(vec![string("Ir")]), 9)));
    assert_eq!(cost_line_def(b"events: Ir 2\n", 0), Ok((HeaderLine::Events(vec![string("Ir")]), 10)));
    assert_eq!(cost_line_def(b"events: \n", 0), Err(failed(Rule::CostLineDef, 0)));
    assert_eq!(cost_line_def(b"positions: instr line\n", 0), Ok((HeaderLine::Positions(true, true), 21)));
    assert_eq!(cost_line_def(b"positions: line\n", 0), Ok((HeaderLine::Positions(false, false), 11)));
    assert_eq!(cost_line_def(b"positions:instr\n", 0), Ok((HeaderLine::Positions(true, false), 15)));
    assert_eq!(cost_line_def(b"positions: instrline\n", 0), Ok((HeaderLine::Positions(true, false), 16)));
    assert_eq!(cost_line_def(b"position: instr\n", 0), Err(failed(Rule::CostLineDef, 0)));
}

#[test]
fn header_line_passes_blank_and_comment_lines() {
    assert_eq!(header_line(b"\n# note\n  \npid: 7\n", 0), Ok((HeaderLine::Pid(7), 17)));
    assert_eq!(header_line(b"# only a comment\n", 0), Err(failed(Rule::HeaderLine, 0)));
    assert_eq!(header_line(b"0 10\n", 0), Err(failed(Rule::HeaderLine, 0)));
    assert_eq!(header_line(b"fn=(1) main\n", 0), Err(failed(Rule::HeaderLine, 0)));
    assert_eq!(header_line(b"", 0), Err(failed(Rule::HeaderLine, 0)));
    assert_eq!(header_line(b"x\ncmd: a\n", 2), Ok((HeaderLine::Cmd(string("a")), 8)));
}
