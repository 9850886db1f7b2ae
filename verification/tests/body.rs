use callgrind::body::{
    body_line, call_line, call_spec, cond_jump_spec, cost_line, position, position_name,
    position_spec, split_columns, sub_position, sub_position_list, uncond_jump_spec,
};
use callgrind::error::{ErrorKind, ParseError, Rule};
use callgrind::model::{BodyLine, CostLine, Position, PositionType, SubDirection, SubPosition};

fn failed(rule: Rule, offset: usize) -> ParseError {
    ParseError { kind: ErrorKind::Malformed, rule, offset }
}

fn abs(n: u32) -> SubPosition {
    SubPosition::Absolute(n)
}

fn plus(n: u32) -> SubPosition {
    SubPosition::Relative(SubDirection::Plus, n)
}

fn minus(n: u32) -> SubPosition {
    SubPosition::Relative(SubDirection::Minus, n)
}

#[test]
fn sub_positions() {
    assert_eq!(sub_position(b"15", 0), Ok((abs(15), 2)));
    assert_eq!(sub_position(b"0x1f ", 0), Ok((abs(31), 4)));
    assert_eq!(sub_position(b"+3", 0), Ok((plus(3), 2)));
    assert_eq!(sub_position(b"-12 ", 0), Ok((minus(12), 3)));
    assert_eq!(sub_position(b"*", 0), Ok((SubPosition::Same, 1)));
    assert_eq!(sub_position(b"+", 0), Err(failed(Rule::SubPosition, 0)));
    assert_eq!(sub_position(b"- 1", 0), Err(failed(Rule::SubPosition, 0)));
    assert_eq!(sub_position(b"a", 0), Err(failed(Rule::SubPosition, 0)));
    assert_eq!(sub_position(b"", 0), Err(failed(Rule::SubPosition, 0)));
    assert_eq!(sub_position(b"+4294967296", 0), Err(failed(Rule::SubPosition, 0)));
}

#[test]
fn sub_position_lists() {
    assert_eq!(sub_position_list(b"1 2\t3\n", 0), Ok((vec![abs(1), abs(2), abs(3)], 5)));
    assert_eq!(sub_position_list(b"* ", 0), Ok((vec![SubPosition::Same], 1)));
    assert_eq!(sub_position_list(b"1 x", 0), Ok((vec![abs(1)], 1)));
    assert_eq!(sub_position_list(b" 1", 0), Err(failed(Rule::SubPositionList, 0)));
    assert_eq!(sub_position_list(b"\n", 0), Err(failed(Rule::SubPositionList, 0)));
}

#[test]
fn columns_are_told_apart() {
    let line = |positions: Vec<SubPosition>, costs: Option<Vec<u32>>| CostLine { positions, costs };
    assert_eq!(split_columns(vec![]), line(vec![], None));
    assert_eq!(split_columns(vec![abs(5)]), line(vec![abs(5)], None));
    assert_eq!(split_columns(vec![SubPosition::Same]), line(vec![SubPosition::Same], None));
    assert_eq!(split_columns(vec![abs(0), abs(10)]), line(vec![abs(0)], Some(vec![10])));
    assert_eq!(
        split_columns(vec![abs(1), abs(2), abs(3), abs(4)]),
        line(vec![abs(1)], Some(vec![2, 3, 4]))
    );
    assert_eq!(
        split_columns(vec![abs(1), plus(2), abs(3)]),
        line(vec![abs(1), plus(2)], Some(vec![3]))
    );
    assert_eq!(
        split_columns(vec![plus(1), SubPosition::Same, abs(7), abs(8)]),
        line(vec![plus(1), SubPosition::Same], Some(vec![7, 8]))
    );
    assert_eq!(
        split_columns(vec![abs(1), abs(2), minus(3)]),
        line(vec![abs(1), abs(2), minus(3)], None)
    );
}

#[test]
fn cost_lines() {
    assert_eq!(
        cost_line(b"16 400 2 1\n", 0),
        Ok((CostLine { positions: vec![abs(16)], costs: Some(vec![400, 2, 1]) }, 10))
    );
    assert_eq!(
        cost_line(b"+2 * 20\n", 0),
        Ok((CostLine { positions: vec![plus(2), SubPosition::Same], costs: Some(vec![20]) }, 7))
    );
    assert_eq!(cost_line(b"7\n", 0), Ok((CostLine { positions: vec![abs(7)], costs: None }, 1)));
    assert_eq!(cost_line(b"x\n", 0), Err(failed(Rule::CostLine, 0)));
}

#[test]
fn position_kinds() {
    assert_eq!(position(b"ob=", 0), Ok((PositionType::Object, 2)));
    assert_eq!(position(b"fl=", 0), Ok((PositionType::File, 2)));
    assert_eq!(position(b"fi=", 0), Ok((PositionType::File, 2)));
    assert_eq!(position(b"fe=", 0), Ok((PositionType::File, 2)));
    assert_eq!(position(b"fn=", 0), Ok((PositionType::Function, 2)));
    assert_eq!(position(b"cob=", 0), Ok((PositionType::CallObject, 3)));
    assert_eq!(position(b"cfi=", 0), Ok((PositionType::CallFile, 3)));
    assert_eq!(position(b"cfl=", 0), Ok((PositionType::CallFile, 3)));
    assert_eq!(position(b"cfn=", 0), Ok((PositionType::CallFunction, 3)));
    assert_eq!(position(b"cfx=", 0), Err(failed(Rule::PositionType, 0)));
    assert_eq!(position(b"f", 0), Err(failed(Rule::PositionType, 0)));
}

#[test]
fn position_values() {
    let named = |id: Option<u32>, val: Option<&str>| Position { id, val: val.map(|s| s.to_string()) };
    assert_eq!(position_name(b"(1) file.c\n", 0), (named(Some(1), Some("file.c")), 10));
    assert_eq!(position_name(b"(0x1f)\n", 0), (named(Some(31), None), 6));
    assert_eq!(position_name(b"main\n", 0), (named(None, Some("main")), 4));
    assert_eq!(position_name(b"\n", 0), (named(None, None), 0));
    assert_eq!(position_name(b"(2)  \n", 0), (named(Some(2), None), 5));
    assert_eq!(position_name(b"(2)x\n", 0), (named(Some(2), Some("x")), 4));
    assert_eq!(position_name(b"(x) y\n", 0), (named(None, Some("(x) y")), 5));
    assert_eq!(position_name(b"(3 y\n", 0), (named(None, Some("(3 y")), 4));
    assert_eq!(position_name(b"(4) tail", 0), (named(Some(4), None), 3));
    assert_eq!(position_name(b"tail", 0), (named(None, None), 0));
    assert_eq!(position_name(b"(5) \xff\n", 0), (named(Some(5), None), 3));
}

#[test]
fn position_lines() {
    assert_eq!(
        position_spec(b"fl=(1) file.c\n", 0),
        Ok((
            BodyLine::PositionSpec(
                PositionType::File,
                Position { id: Some(1), val: Some("file.c".to_string()) }
            ),
            13
        ))
    );
    assert_eq!(
        position_spec(b"cfn= (7)\n", 0),
        Ok((BodyLine::PositionSpec(PositionType::CallFunction, Position { id: Some(7), val: None }), 8))
    );
    assert_eq!(
        position_spec(b"ob=/lib/ld.so\n", 0),
        Ok((
            BodyLine::PositionSpec(
                PositionType::Object,
                Position { id: None, val: Some("/lib/ld.so".to_string()) }
            ),
            13
        ))
    );
    assert_eq!(
        position_spec(b"fn=\n", 0),
        Ok((BodyLine::PositionSpec(PositionType::Function, Position { id: None, val: None }), 3))
    );
    assert_eq!(position_spec(b"fn main\n", 0), Err(failed(Rule::PositionSpec, 0)));
    assert_eq!(position_spec(b"xx=main\n", 0), Err(failed(Rule::PositionSpec, 0)));
}

#[test]
fn calls_and_jumps() {
    assert_eq!(call_line(b"calls=1 50\n", 0), Ok(((1, vec![abs(50)]), 10)));
    assert_eq!(call_line(b"calls= 2  +1 *\n", 0), Ok(((2, vec![plus(1), SubPosition::Same]), 14)));
    assert_eq!(call_line(b"calls=1\n", 0), Err(failed(Rule::CallLine, 0)));
    assert_eq!(call_line(b"calls=x 1\n", 0), Err(failed(Rule::CallLine, 0)));
    assert_eq!(
        call_spec(b"calls=1 50\n16 400\n", 0),
        Ok((
            BodyLine::CallSpec(
                1,
                vec![abs(50)],
                CostLine { positions: vec![abs(16)], costs: Some(vec![400]) }
            ),
            17
        ))
    );
    assert_eq!(call_spec(b"calls=1 50\n\n16 400\n", 0), Err(failed(Rule::CallSpec, 0)));
    assert_eq!(call_spec(b"calls=1 50\n", 0), Err(failed(Rule::CallSpec, 0)));
    assert_eq!(call_spec(b"calls=1 50 16 400\n", 0), Err(failed(Rule::CallSpec, 0)));
    assert_eq!(
        uncond_jump_spec(b"jump=3 20\n", 0),
        Ok((BodyLine::UncondJumpSpec(3, vec![abs(20)]), 9))
    );
    assert_eq!(uncond_jump_spec(b"jump=3\n", 0), Err(failed(Rule::UncondJumpSpec, 0)));
    assert_eq!(
        cond_jump_spec(b"jcnd=2 5 +3\n", 0),
        Ok((BodyLine::CondJumpSpec(2, 5, vec![plus(3)]), 11))
    );
    assert_eq!(
        cond_jump_spec(b"jcnd= 2 5 1 2\n", 0),
        Ok((BodyLine::CondJumpSpec(2, 5, vec![abs(1), abs(2)]), 13))
    );
    assert_eq!(cond_jump_spec(b"jcnd=2 5\n", 0), Err(failed(Rule::CondJumpSpec, 0)));
    assert_eq!(cond_jump_spec(b"jcnd=2 +5 1\n", 0), Err(failed(Rule::CondJumpSpec, 0)));
}

#[test]
fn body_line_passes_blank_and_comment_lines() {
    assert_eq!(
        body_line(b"\n# c\n16 20\n", 0),
        Ok((BodyLine::Cost(CostLine { positions: vec![abs(16)], costs: Some(vec![20]) }), 10))
    );
    assert_eq!(body_line(b"jump=1 2\n", 0), Ok((BodyLine::UncondJumpSpec(1, vec![abs(2)]), 8)));
    assert_eq!(body_line(b"jcnd=1 2 3\n", 0), Ok((BodyLine::CondJumpSpec(1, 2, vec![abs(3)]), 10)));
    assert_eq!(body_line(b"cmd: a\n", 0), Err(failed(Rule::BodyLine, 0)));
    assert_eq!(body_line(b"# c\n", 0), Err(failed(Rule::BodyLine, 0)));
    assert_eq!(body_line(b"", 0), Err(failed(Rule::BodyLine, 0)));
    assert_eq!(body_line(b"calls=1 1\n", 0), Err(failed(Rule::BodyLine, 0)));
}

#[test]
fn body_rules_behind_the_buffer() {
    assert_eq!(position_name(b"(1) a\n", 9), (Position { id: None, val: None }, 9));
    assert_eq!(body_line(b"0 1\n", 9), Err(failed(Rule::BodyLine, 9)));
    assert_eq!(cost_line(b"0 1\n", 5), Err(failed(Rule::CostLine, 5)));
}
