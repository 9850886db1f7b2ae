//! The bytes of the literals of the grammar: how long each is, and the bytes
//! by which the rules are told apart.

use crate::lexical::{bytes_of, lemma_ascii_literal};
use vstd::prelude::*;

verus! {

/// The literals of the header grammar.
pub proof fn lemma_header_literals()
    ensures
        bytes_of("cmd:").len() == 4,
        bytes_of("cmd:")[0] == 'c' as u8,
        bytes_of("cmd:")[1] == 'm' as u8,
        bytes_of(":").len() == 1,
        bytes_of(":")[0] == ':' as u8,
        bytes_of("pid").len() == 3,
        bytes_of("pid")[0] == 'p' as u8,
        bytes_of("pid")[1] == 'i' as u8,
        bytes_of("thread").len() == 6,
        bytes_of("thread")[0] == 't' as u8,
        bytes_of("part").len() == 4,
        bytes_of("part")[0] == 'p' as u8,
        bytes_of("part")[1] == 'a' as u8,
        bytes_of("desc:").len() == 5,
        bytes_of("desc:")[0] == 'd' as u8,
        bytes_of("event:").len() == 6,
        bytes_of("event:")[0] == 'e' as u8,
        bytes_of("event:")[5] == ':' as u8,
        bytes_of("events:").len() == 7,
        bytes_of("events:")[0] == 'e' as u8,
        bytes_of("events:")[5] == 's' as u8,
        bytes_of("positions:").len() == 10,
        bytes_of("positions:")[0] == 'p' as u8,
        bytes_of("positions:")[1] == 'o' as u8,
        bytes_of("instr").len() == 5,
        bytes_of("instr")[0] == 'i' as u8,
        bytes_of("line").len() == 4,
        bytes_of("line")[0] == 'l' as u8,
        bytes_of("=").len() == 1,
        bytes_of("=")[0] == '=' as u8,
        bytes_of("+").len() == 1,
        bytes_of("+")[0] == '+' as u8,
        bytes_of("*").len() == 1,
        bytes_of("*")[0] == '*' as u8,
{
    reveal_strlit("cmd:");
    lemma_ascii_literal("cmd:");
    reveal_strlit(":");
    lemma_ascii_literal(":");
    reveal_strlit("pid");
    lemma_ascii_literal("pid");
    reveal_strlit("thread");
    lemma_ascii_literal("thread");
    reveal_strlit("part");
    lemma_ascii_literal("part");
    reveal_strlit("desc:");
    lemma_ascii_literal("desc:");
    reveal_strlit("event:");
    lemma_ascii_literal("event:");
    reveal_strlit("events:");
    lemma_ascii_literal("events:");
    reveal_strlit("positions:");
    lemma_ascii_literal("positions:");
    reveal_strlit("instr");
    lemma_ascii_literal("instr");
    reveal_strlit("line");
    lemma_ascii_literal("line");
    reveal_strlit("=");
    lemma_ascii_literal("=");
    reveal_strlit("+");
    lemma_ascii_literal("+");
    reveal_strlit("*");
    lemma_ascii_literal("*");
}

/// The literals of the body grammar.
pub proof fn lemma_body_literals()
    ensures
        bytes_of("+").len() == 1,
        bytes_of("+")[0] == '+' as u8,
        bytes_of("-").len() == 1,
        bytes_of("-")[0] == '-' as u8,
        bytes_of("*").len() == 1,
        bytes_of("*")[0] == '*' as u8,
        bytes_of("=").len() == 1,
        bytes_of("=")[0] == '=' as u8,
        bytes_of("(").len() == 1,
        bytes_of("(")[0] == '(' as u8,
        bytes_of(")").len() == 1,
        bytes_of(")")[0] == ')' as u8,
        bytes_of("\n").len() == 1,
        bytes_of("\n")[0] == '\n' as u8,
        bytes_of("cob").len() == 3,
        bytes_of("cob")[0] == 'c' as u8,
        bytes_of("cob")[1] == 'o' as u8,
        bytes_of("cob")[2] == 'b' as u8,
        bytes_of("cfi").len() == 3,
        bytes_of("cfi")[0] == 'c' as u8,
        bytes_of("cfi")[1] == 'f' as u8,
        bytes_of("cfi")[2] == 'i' as u8,
        bytes_of("cfl").len() == 3,
        bytes_of("cfl")[0] == 'c' as u8,
        bytes_of("cfl")[1] == 'f' as u8,
        bytes_of("cfl")[2] == 'l' as u8,
        bytes_of("cfn").len() == 3,
        bytes_of("cfn")[0] == 'c' as u8,
        bytes_of("cfn")[1] == 'f' as u8,
        bytes_of("cfn")[2] == 'n' as u8,
        bytes_of("ob").len() == 2,
        bytes_of("ob")[0] == 'o' as u8,
        bytes_of("ob")[1] == 'b' as u8,
        bytes_of("fl").len() == 2,
        bytes_of("fl")[0] == 'f' as u8,
        bytes_of("fl")[1] == 'l' as u8,
        bytes_of("fi").len() == 2,
        bytes_of("fi")[0] == 'f' as u8,
        bytes_of("fi")[1] == 'i' as u8,
        bytes_of("fe").len() == 2,
        bytes_of("fe")[0] == 'f' as u8,
        bytes_of("fe")[1] == 'e' as u8,
        bytes_of("fn").len() == 2,
        bytes_of("fn")[0] == 'f' as u8,
        bytes_of("fn")[1] == 'n' as u8,
        bytes_of("calls=").len() == 6,
        bytes_of("calls=")[0] == 'c' as u8,
        bytes_of("calls=")[1] == 'a' as u8,
        bytes_of("jump=").len() == 5,
        bytes_of("jump=")[0] == 'j' as u8,
        bytes_of("jump=")[1] == 'u' as u8,
        bytes_of("jcnd=").len() == 5,
        bytes_of("jcnd=")[0] == 'j' as u8,
        bytes_of("jcnd=")[1] == 'c' as u8,
        bytes_of("0x").len() == 2,
        bytes_of("0x")[0] == '0' as u8,
        bytes_of("0x")[1] == 'x' as u8,
{
    reveal_strlit("+");
    lemma_ascii_literal("+");
    reveal_strlit("-");
    lemma_ascii_literal("-");
    reveal_strlit("*");
    lemma_ascii_literal("*");
    reveal_strlit("=");
    lemma_ascii_literal("=");
    reveal_strlit("(");
    lemma_ascii_literal("(");
    reveal_strlit(")");
    lemma_ascii_literal(")");
    reveal_strlit("\n");
    lemma_ascii_literal("\n");
    reveal_strlit("cob");
    lemma_ascii_literal("cob");
    reveal_strlit("cfi");
    lemma_ascii_literal("cfi");
    reveal_strlit("cfl");
    lemma_ascii_literal("cfl");
    reveal_strlit("cfn");
    lemma_ascii_literal("cfn");
    reveal_strlit("ob");
    lemma_ascii_literal("ob");
    reveal_strlit("fl");
    lemma_ascii_literal("fl");
    reveal_strlit("fi");
    lemma_ascii_literal("fi");
    reveal_strlit("fe");
    lemma_ascii_literal("fe");
    reveal_strlit("fn");
    lemma_ascii_literal("fn");
    reveal_strlit("calls=");
    lemma_ascii_literal("calls=");
    reveal_strlit("jump=");
    lemma_ascii_literal("jump=");
    reveal_strlit("jcnd=");
    lemma_ascii_literal("jcnd=");
    reveal_strlit("0x");
    lemma_ascii_literal("0x");
}

/// The literals of the lines before the first part.
pub proof fn lemma_document_literals()
    ensures
        bytes_of("\n").len() == 1,
        bytes_of("\n")[0] == '\n' as u8,
        bytes_of("version:").len() == 8,
        bytes_of("version:")[0] == 'v' as u8,
        bytes_of("creator:").len() == 8,
        bytes_of("creator:")[0] == 'c' as u8,
        bytes_of("creator:")[1] == 'r' as u8,
        bytes_of("# callgrind format\n").len() == 19,
        bytes_of("# callgrind format\n")[0] == '#' as u8,
        bytes_of("# callgrind format\n")[18] == '\n' as u8,
{
    reveal_strlit("\n");
    lemma_ascii_literal("\n");
    reveal_strlit("version:");
    lemma_ascii_literal("version:");
    reveal_strlit("creator:");
    lemma_ascii_literal("creator:");
    reveal_strlit("# callgrind format\n");
    lemma_ascii_literal("# callgrind format\n");
}

} // verus!
