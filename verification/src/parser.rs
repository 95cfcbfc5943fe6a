//! Parsing of source bytes into an instruction tree.
//!
//! Exactly eight byte values are commands; every other byte is a comment
//! and is skipped. A `[` opens a nested loop body, which the matching `]`
//! closes. The parser is specified through [`commands`] (the command bytes
//! of a source text, comments removed), [`render_seq`] (the canonical
//! command rendering of a program) and the bracket balance of a command
//! sequence ([`nesting`] and [`prefixes_open`]): a parse succeeds exactly
//! on balanced sources, and the program it returns renders back to the
//! source's command bytes.

use vstd::prelude::*;

verus! {

/// `>`
pub const FORWARD_BYTE: u8 = 62;

/// `<`
pub const BACKWARD_BYTE: u8 = 60;

/// `+`
pub const PLUS_BYTE: u8 = 43;

/// `-`
pub const MINUS_BYTE: u8 = 45;

/// `.`
pub const DOT_BYTE: u8 = 46;

/// `,`
pub const COMMA_BYTE: u8 = 44;

/// `[`
pub const OPEN_BYTE: u8 = 91;

/// `]`
pub const CLOSE_BYTE: u8 = 93;

/// A parse failure.
///
/// Stream-level I/O failures are the concern of whatever collaborator
/// produced the source bytes; by the time the parser runs, the whole
/// source is in memory, so only the two bracket errors remain.
#[derive(Debug, Clone, Copy, PartialEq, Eq)]
pub enum Error {
    /// The source ended while a `[` was still unmatched.
    UnexpectedEof,
    /// A `]` surfaced with no enclosing open `[`; carries the stray byte.
    UnexpectedChar(u8),
}

/// One instruction of a program; `Loop` owns its nested body.
#[derive(Debug, PartialEq, Eq)]
pub enum Instruction {
    /// `>`
    IncrementPtr,
    /// `<`
    DecrementPtr,
    /// `+`
    IncrementValue,
    /// `-`
    DecrementValue,
    /// `.`
    Output,
    /// `,`
    Input,
    /// `[` body `]`
    Loop(Vec<Instruction>),
}

/// Whether `b` is one of the eight command bytes.
pub open spec fn is_command(b: u8) -> bool {
    b == FORWARD_BYTE || b == BACKWARD_BYTE || b == PLUS_BYTE || b == MINUS_BYTE || b == DOT_BYTE || b == COMMA_BYTE || b == OPEN_BYTE
        || b == CLOSE_BYTE
}

/// The command bytes of a source text, in order, with comments removed.
pub open spec fn commands(s: Seq<u8>) -> Seq<u8>
    decreases s.len(),
{
    if s.len() == 0 {
        Seq::empty()
    } else {
        commands(s.drop_last()) + (if is_command(s.last()) {
            seq![s.last()]
        } else {
            Seq::empty()
        })
    }
}

/// The contribution of one byte to the bracket balance.
pub open spec fn bracket_delta(b: u8) -> int {
    if b == OPEN_BYTE {
        1
    } else if b == CLOSE_BYTE {
        -1
    } else {
        0
    }
}

/// Opening brackets minus closing brackets in `s`.
pub open spec fn nesting(s: Seq<u8>) -> int
    decreases s.len(),
{
    if s.len() == 0 {
        0
    } else {
        nesting(s.drop_last()) + bracket_delta(s.last())
    }
}

/// No prefix of `s` closes more brackets than it opens.
pub open spec fn prefixes_open(s: Seq<u8>) -> bool {
    forall|i: int| 0 <= i <= s.len() ==> nesting(#[trigger] s.take(i)) >= 0
}

/// Every prefix keeps the balance non-negative and the whole of `s`
/// closes every bracket it opens.
pub open spec fn balanced(s: Seq<u8>) -> bool {
    prefixes_open(s) && nesting(s) == 0
}

/// The canonical source rendering of one instruction: its command byte,
/// or for a loop the rendered body between `[` and `]`.
pub open spec fn render_instr(i: Instruction) -> Seq<u8>
    decreases i,
{
    match i {
        Instruction::IncrementPtr => seq![FORWARD_BYTE],
        Instruction::DecrementPtr => seq![BACKWARD_BYTE],
        Instruction::IncrementValue => seq![PLUS_BYTE],
        Instruction::DecrementValue => seq![MINUS_BYTE],
        Instruction::Output => seq![DOT_BYTE],
        Instruction::Input => seq![COMMA_BYTE],
        Instruction::Loop(body) => seq![OPEN_BYTE] + render_seq(body@) + seq![CLOSE_BYTE],
    }
}

/// The canonical source rendering of a program: the renderings of its
/// instructions, concatenated in order.
pub open spec fn render_seq(p: Seq<Instruction>) -> Seq<u8>
    decreases p,
{
    if p.len() == 0 {
        Seq::empty()
    } else {
        render_seq(p.drop_last()) + render_instr(p.last())
    }
}

proof fn lemma_commands_add(a: Seq<u8>, b: Seq<u8>)
    ensures
        commands(a + b) == commands(a) + commands(b),
    decreases b.len(),
{
    if b.len() == 0 {
        assert(a + b =~= a);
        assert(commands(a) + commands(b) =~= commands(a));
    } else {
        lemma_commands_add(a, b.drop_last());
        assert((a + b).drop_last() =~= a + b.drop_last());
        assert((a + b).last() == b.last());
        assert(commands(a) + commands(b.drop_last()) + (if is_command(b.last()) {
            seq![b.last()]
        } else {
            Seq::<u8>::empty()
        }) =~= commands(a) + commands(b));
    }
}

proof fn lemma_nesting_add(a: Seq<u8>, b: Seq<u8>)
    ensures
        nesting(a + b) == nesting(a) + nesting(b),
    decreases b.len(),
{
    if b.len() == 0 {
        assert(a + b =~= a);
    } else {
        lemma_nesting_add(a, b.drop_last());
        assert((a + b).drop_last() =~= a + b.drop_last());
        assert((a + b).last() == b.last());
    }
}

proof fn lemma_commands_single(b: u8)
    ensures
        commands(seq![b]) == (if is_command(b) {
            seq![b]
        } else {
            Seq::<u8>::empty()
        }),
{
    assert(seq![b].len() == 1 && seq![b].last() == b);
    assert(seq![b].drop_last() =~= Seq::<u8>::empty());
    assert(commands(Seq::<u8>::empty()) == Seq::<u8>::empty());
    assert(Seq::<u8>::empty() + (if is_command(b) {
        seq![b]
    } else {
        Seq::<u8>::empty()
    }) =~= (if is_command(b) {
        seq![b]
    } else {
        Seq::<u8>::empty()
    }));
}

proof fn lemma_nesting_single(b: u8)
    ensures
        nesting(seq![b]) == bracket_delta(b),
{
    assert(seq![b].len() == 1 && seq![b].last() == b);
    assert(seq![b].drop_last() =~= Seq::<u8>::empty());
    assert(nesting(Seq::<u8>::empty()) == 0);
}

/// Concatenation keeps every prefix balance non-negative, provided the
/// balance of `a` absorbs every dip that a prefix of `b` can make.
proof fn lemma_prefixes_open_add(a: Seq<u8>, b: Seq<u8>)
    requires
        prefixes_open(a),
        forall|j: int| 0 <= j <= b.len() ==> nesting(a) + nesting(#[trigger] b.take(j)) >= 0,
    ensures
        prefixes_open(a + b),
{
    assert forall|i: int| 0 <= i <= (a + b).len() implies nesting(#[trigger] (a + b).take(i))
        >= 0 by {
        if i <= a.len() {
            assert((a + b).take(i) =~= a.take(i));
        } else {
            assert((a + b).take(i) =~= a + b.take(i - a.len()));
            lemma_nesting_add(a, b.take(i - a.len()));
        }
    }
}

/// A balanced piece followed by a prefix-open piece is prefix-open.
proof fn lemma_prefixes_open_join(a: Seq<u8>, b: Seq<u8>)
    requires
        prefixes_open(a),
        prefixes_open(b),
        nesting(a) >= 0,
    ensures
        prefixes_open(a + b),
{
    lemma_prefixes_open_add(a, b);
}

/// The canonical rendering of any program is a balanced command sequence.
proof fn lemma_render_instr_balanced(i: Instruction)
    ensures
        balanced(render_instr(i)),
    decreases i,
{
    match i {
        Instruction::Loop(body) => {
            lemma_render_seq_balanced(body@);
            let open = seq![OPEN_BYTE];
            let close = seq![CLOSE_BYTE];
            let inner = render_seq(body@);
            lemma_nesting_single(OPEN_BYTE);
            lemma_nesting_single(CLOSE_BYTE);
            assert(prefixes_open(open)) by {
                assert forall|j: int| 0 <= j <= 1 implies nesting(#[trigger] open.take(j))
                    >= 0 by {
                    if j == 0 {
                        assert(open.take(0) =~= Seq::<u8>::empty());
                    } else {
                        assert(open.take(1) =~= open);
                    }
                }
            }
            lemma_prefixes_open_join(open, inner);
            lemma_nesting_add(open, inner);
            let front = open + inner;
            assert forall|j: int| 0 <= j <= 1 implies nesting(front) + nesting(
                #[trigger] close.take(j),
            ) >= 0 by {
                if j == 0 {
                    assert(close.take(0) =~= Seq::<u8>::empty());
                } else {
                    assert(close.take(1) =~= close);
                }
            }
            lemma_prefixes_open_add(front, close);
            lemma_nesting_add(front, close);
            assert(render_instr(i) =~= front + close);
        },
        _ => {
            let r = render_instr(i);
            assert(r.len() == 1 && bracket_delta(r.last()) == 0);
            lemma_nesting_single(r.last());
            assert(r =~= seq![r.last()]);
            assert forall|j: int| 0 <= j <= 1 implies nesting(#[trigger] r.take(j)) >= 0 by {
                if j == 0 {
                    assert(r.take(0) =~= Seq::<u8>::empty());
                } else {
                    assert(r.take(1) =~= r);
                }
            }
        },
    }
}

/// See [`lemma_render_instr_balanced`].
proof fn lemma_render_seq_balanced(p: Seq<Instruction>)
    ensures
        balanced(render_seq(p)),
    decreases p,
{
    if p.len() == 0 {
        assert forall|j: int| 0 <= j <= 0 implies nesting(
            #[trigger] render_seq(p).take(j),
        ) >= 0 by {
            assert(render_seq(p).take(0) =~= Seq::<u8>::empty());
        }
    } else {
        lemma_render_seq_balanced(p.drop_last());
        lemma_render_instr_balanced(p.last());
        lemma_prefixes_open_join(render_seq(p.drop_last()), render_instr(p.last()));
        lemma_nesting_add(render_seq(p.drop_last()), render_instr(p.last()));
    }
}

/// Appending one instruction appends its rendering.
proof fn lemma_render_seq_push(p: Seq<Instruction>, i: Instruction)
    ensures
        render_seq(p.push(i)) == render_seq(p) + render_instr(i),
{
    assert(p.push(i).drop_last() =~= p);
    assert(p.push(i).last() == i);
}

/// Structural identity of two instructions: the same variant, and for
/// loops structurally identical bodies.
pub open spec fn same_instr(i1: Instruction, i2: Instruction) -> bool
    decreases i1,
{
    match (i1, i2) {
        (Instruction::Loop(b1), Instruction::Loop(b2)) => same_program(b1@, b2@),
        _ => i1 == i2,
    }
}

/// Structural identity of two programs, instruction by instruction.
pub open spec fn same_program(p1: Seq<Instruction>, p2: Seq<Instruction>) -> bool
    decreases p1,
{
    p1.len() == p2.len() && (forall|k: int|
        0 <= k < p1.len() ==> same_instr(#[trigger] p1[k], p2[k]))
}

/// Two programs with the same rendering are structurally the same
/// program: together with the contract of [`Parser::parse`], the program
/// a parse returns is determined by the source's command bytes alone, so
/// comment bytes are fully transparent.
pub proof fn lemma_render_seq_injective(p1: Seq<Instruction>, p2: Seq<Instruction>)
    requires
        render_seq(p1) == render_seq(p2),
    ensures
        same_program(p1, p2),
    decreases p1,
{
    if p1.len() == 0 {
        if p2.len() != 0 {
            lemma_render_last_nonempty(p2);
        }
    } else if p2.len() == 0 {
        lemma_render_last_nonempty(p1);
    } else {
        lemma_render_last_aligned(p1, p2);
        lemma_render_seq_injective(p1.drop_last(), p2.drop_last());
        lemma_loop_body_injective(p1.last(), p2.last());
        assert forall|k: int| 0 <= k < p1.len() implies same_instr(#[trigger] p1[k], p2[k]) by {
            if k < p1.len() - 1 {
                assert(p1.drop_last()[k] == p1[k] && p2.drop_last()[k] == p2[k]);
            }
        }
    }
}

/// Two instructions with the same rendering are structurally the same
/// instruction.
proof fn lemma_loop_body_injective(i1: Instruction, i2: Instruction)
    requires
        render_instr(i1) == render_instr(i2),
    ensures
        same_instr(i1, i2),
    decreases i1,
{
    let r1 = render_instr(i1);
    let r2 = render_instr(i2);
    assert(r1[0] == r2[0]);
    match (i1, i2) {
        (Instruction::Loop(body1), Instruction::Loop(body2)) => {
            let in1 = render_seq(body1@);
            let in2 = render_seq(body2@);
            assert(r1 == seq![OPEN_BYTE] + in1 + seq![CLOSE_BYTE]);
            assert(r2 == seq![OPEN_BYTE] + in2 + seq![CLOSE_BYTE]);
            assert(r1.len() == 2 + in1.len() && r2.len() == 2 + in2.len());
            assert(in1.len() == in2.len());
            assert forall|k: int| 0 <= k < in1.len() implies in1[k] == in2[k] by {
                assert(r1[1 + k] == (seq![OPEN_BYTE] + in1)[1 + k]);
                assert((seq![OPEN_BYTE] + in1)[1 + k] == in1[k]);
                assert(r2[1 + k] == (seq![OPEN_BYTE] + in2)[1 + k]);
                assert((seq![OPEN_BYTE] + in2)[1 + k] == in2[k]);
            }
            assert(in1 =~= in2);
            lemma_render_seq_injective(body1@, body2@);
        },
        _ => {
        },
    }
}

/// The rendering of a non-empty program is non-empty.
proof fn lemma_render_last_nonempty(p: Seq<Instruction>)
    requires
        p.len() > 0,
    ensures
        render_seq(p).len() > 0,
        render_instr(p.last()).len() > 0,
{
}

/// Renderings of single instructions that end a common byte sequence
/// agree exactly, and so do the renderings of what precedes them.
proof fn lemma_render_last_aligned(p1: Seq<Instruction>, p2: Seq<Instruction>)
    requires
        p1.len() > 0,
        p2.len() > 0,
        render_seq(p1) == render_seq(p2),
    ensures
        render_seq(p1.drop_last()) == render_seq(p2.drop_last()),
        render_instr(p1.last()) == render_instr(p2.last()),
{
    let a1 = render_seq(p1.drop_last());
    let b1 = render_instr(p1.last());
    let a2 = render_seq(p2.drop_last());
    let b2 = render_instr(p2.last());
    assert(render_seq(p1) == a1 + b1 && render_seq(p2) == a2 + b2);
    assert((a1 + b1).len() == a1.len() + b1.len());
    assert((a2 + b2).len() == a2.len() + b2.len());
    if b1.len() == b2.len() {
        assert forall|k: int| 0 <= k < a1.len() implies a1[k] == a2[k] by {
            assert((a1 + b1)[k] == a1[k]);
            assert((a2 + b2)[k] == a2[k]);
        }
        assert(a1 =~= a2);
        assert forall|k: int| 0 <= k < b1.len() implies b1[k] == b2[k] by {
            assert((a1 + b1)[a1.len() + k] == b1[k]);
            assert((a2 + b2)[a2.len() + k] == b2[k]);
        }
        assert(b1 =~= b2);
    } else if b1.len() < b2.len() {
        lemma_render_tail_mismatch(p1.last(), p2.last(), a1, a2);
        assert(false);
    } else {
        lemma_render_tail_mismatch(p2.last(), p1.last(), a2, a1);
        assert(false);
    }
}

/// When a shorter instruction rendering ends where a longer one ends, the
/// bytes of the longer one before the shorter one begins form a proper
/// prefix of balance zero — which no instruction rendering has, so the
/// callers of this lemma conclude that the lengths cannot differ.
proof fn lemma_render_tail_mismatch(i1: Instruction, i2: Instruction, a1: Seq<u8>, a2: Seq<u8>)
    requires
        a1 + render_instr(i1) == a2 + render_instr(i2),
        render_instr(i1).len() < render_instr(i2).len(),
    ensures
        nesting(render_instr(i2).take(render_instr(i2).len() - render_instr(i1).len())) == 0,
        nesting(render_instr(i2).take(render_instr(i2).len() - render_instr(i1).len())) >= 1,
{
    let b1 = render_instr(i1);
    let b2 = render_instr(i2);
    lemma_render_instr_balanced(i1);
    lemma_render_instr_balanced(i2);
    lemma_render_instr_nonempty(i1);
    let cut = b2.len() - b1.len();
    assert((a1 + b1).len() == a1.len() + b1.len());
    assert((a2 + b2).len() == a2.len() + b2.len());
    assert(a1.len() == a2.len() + cut);
    assert forall|k: int| 0 <= k < b1.len() implies b2.skip(cut)[k] == b1[k] by {
        assert((a1 + b1)[a1.len() + k] == b1[k]);
        assert((a2 + b2)[a2.len() + cut + k] == b2[cut + k]);
    }
    assert(b2.skip(cut) =~= b1);
    match i2 {
        Instruction::Loop(body) => {
            lemma_nesting_add(b2.take(cut), b2.skip(cut));
            assert(b2.take(cut) + b2.skip(cut) =~= b2);
            lemma_render_loop_proper_prefix(body, cut);
        },
        _ => {
            assert(b2.len() == 1);
        },
    }
}

/// The rendering of an instruction holds at least one byte.
proof fn lemma_render_instr_nonempty(i: Instruction)
    ensures
        render_instr(i).len() >= 1,
{
}

/// A proper, non-empty prefix of a loop rendering has positive balance:
/// the opening bracket is not yet closed.
proof fn lemma_render_loop_proper_prefix(body: Vec<Instruction>, cut: int)
    requires
        0 < cut < render_instr(Instruction::Loop(body)).len(),
    ensures
        nesting(render_instr(Instruction::Loop(body)).take(cut)) >= 1,
{
    let open = seq![OPEN_BYTE];
    let inner = render_seq(body@);
    let b2 = render_instr(Instruction::Loop(body));
    lemma_render_seq_balanced(body@);
    lemma_nesting_single(OPEN_BYTE);
    assert(b2.take(cut) =~= open + inner.take(cut - 1));
    lemma_nesting_add(open, inner.take(cut - 1));
}

/// A single byte that does not close a bracket keeps prefixes open.
proof fn lemma_prefixes_open_single(b: u8)
    requires
        bracket_delta(b) >= 0,
    ensures
        prefixes_open(seq![b]),
{
    lemma_nesting_single(b);
    assert forall|j: int| 0 <= j <= 1 implies nesting(#[trigger] seq![b].take(j)) >= 0 by {
        if j == 0 {
            assert(seq![b].take(0) =~= Seq::<u8>::empty());
        } else {
            assert(seq![b].take(1) =~= seq![b]);
        }
    }
}

/// Extending a segment by one byte appends that byte's command, if it is
/// one, to the segment's commands.
proof fn lemma_commands_snoc(s: Seq<u8>, a: int, p: int)
    requires
        0 <= a <= p < s.len(),
    ensures
        commands(s.subrange(a, p + 1)) == commands(s.subrange(a, p)) + (if is_command(s[p]) {
            seq![s[p]]
        } else {
            Seq::<u8>::empty()
        }),
{
    assert(s.subrange(a, p + 1) =~= s.subrange(a, p) + seq![s[p]]);
    lemma_commands_add(s.subrange(a, p), seq![s[p]]);
    lemma_commands_single(s[p]);
}

/// A parser over an in-memory source byte stream; its view is the stream.
///
/// The surrounding program acquires the byte stream (a file, a pipe) and
/// hands the bytes over whole; the parser's cursor then moves through
/// them once, skipping comment bytes and matching brackets.
pub struct Parser {
    source: Vec<u8>,
}

impl View for Parser {
    type V = Seq<u8>;

    closed spec fn view(&self) -> Seq<u8> {
        self.source@
    }
}

impl Parser {
    /// Wraps a source byte stream for parsing.
    pub fn new(source: Vec<u8>) -> (r: Self)
        ensures
            r@ == source@,
    {
        Parser { source }
    }

    /// Parses the whole source into a program.
    ///
    /// Succeeds exactly on sources whose command bytes are
    /// bracket-balanced, and then returns the program whose rendering is
    /// those command bytes; otherwise it reports which way the brackets
    /// fail: a stray `]` (with the offending byte) where some prefix
    /// closes more than it opens, an unterminated `[` where the source
    /// ends with brackets still open.
    pub fn parse(self) -> (r: Result<Vec<Instruction>, Error>)
        ensures
            match r {
                Ok(p) => balanced(commands(self@)) && render_seq(p@) == commands(self@),
                Err(Error::UnexpectedChar(b)) => b == CLOSE_BYTE && !prefixes_open(
                    commands(self@),
                ),
                Err(Error::UnexpectedEof) => prefixes_open(commands(self@)) && nesting(
                    commands(self@),
                ) > 0,
            },
    {
        let ghost s = self.source@;
        proof {
            assert(s.subrange(0, s.len() as int) =~= s);
        }
        match parse_body(&self.source, 0) {
            Ok((prog, end, closed)) => {
                if closed {
                    proof {
                        let cp = commands(s.subrange(0, end as int));
                        assert(s =~= s.subrange(0, end as int) + s.subrange(
                            end as int,
                            s.len() as int,
                        ));
                        lemma_commands_add(
                            s.subrange(0, end as int),
                            s.subrange(end as int, s.len() as int),
                        );
                        lemma_render_seq_balanced(prog@);
                        lemma_nesting_single(CLOSE_BYTE);
                        lemma_nesting_add(render_seq(prog@), seq![CLOSE_BYTE]);
                        assert(commands(s).take(cp.len() as int) =~= cp);
                        assert(nesting(commands(s).take(cp.len() as int)) == -1);
                    }
                    Err(Error::UnexpectedChar(CLOSE_BYTE))
                } else {
                    proof {
                        lemma_render_seq_balanced(prog@);
                    }
                    Ok(prog)
                }
            },
            Err(e) => Err(e),
        }
    }
}

/// Parses instructions from `src` beginning at `start`, skipping comment
/// bytes, until either the source is exhausted (`closed` is false) or a
/// `]` ends the segment and is consumed (`closed` is true); a `[` opens a
/// nested body parsed by recursion, and a source that ends inside such a
/// body is an `UnexpectedEof`.
fn parse_body(src: &Vec<u8>, start: usize) -> (r: Result<(Vec<Instruction>, usize, bool), Error>)
    requires
        start <= src@.len(),
    ensures
        match r {
            Ok((prog, end, closed)) => {
                &&& start <= end <= src@.len()
                &&& closed ==> start < end && commands(src@.subrange(start as int, end as int))
                    == render_seq(prog@) + seq![CLOSE_BYTE]
                &&& !closed ==> end == src@.len() && commands(
                    src@.subrange(start as int, end as int),
                ) == render_seq(prog@)
            },
            Err(e) => {
                &&& e == Error::UnexpectedEof
                &&& prefixes_open(commands(src@.subrange(start as int, src@.len() as int)))
                &&& nesting(commands(src@.subrange(start as int, src@.len() as int))) > 0
            },
        },
    decreases src@.len() - start,
{
    let ghost s = src@;
    let mut out: Vec<Instruction> = Vec::new();
    let mut pos: usize = start;
    proof {
        assert(s.subrange(start as int, start as int) =~= Seq::<u8>::empty());
    }
    loop
        invariant
            start <= pos <= s.len(),
            s == src@,
            commands(s.subrange(start as int, pos as int)) == render_seq(out@),
        decreases s.len() - pos,
    {
        if pos == src.len() {
            return Ok((out, pos, false));
        }
        let b = src[pos];
        if b == CLOSE_BYTE {
            proof {
                lemma_commands_snoc(s, start as int, pos as int);
            }
            return Ok((out, pos + 1, true));
        } else if b == OPEN_BYTE {
            proof {
                lemma_commands_snoc(s, start as int, pos as int);
            }
            match parse_body(src, pos + 1) {
                Err(e) => {
                    proof {
                        lemma_tail_open(s, start as int, pos as int, out@);
                    }
                    return Err(e);
                },
                Ok((body, end2, closed2)) => {
                    if closed2 {
                        proof {
                            let a = render_seq(out@);
                            let inner = render_seq(body@);
                            assert(s.subrange(start as int, end2 as int) =~= s.subrange(
                                start as int,
                                pos as int + 1,
                            ) + s.subrange(pos as int + 1, end2 as int));
                            lemma_commands_add(
                                s.subrange(start as int, pos as int + 1),
                                s.subrange(pos as int + 1, end2 as int),
                            );
                            lemma_render_seq_push(out@, Instruction::Loop(body));
                            assert(render_instr(Instruction::Loop(body)) == seq![OPEN_BYTE] + inner
                                + seq![CLOSE_BYTE]);
                            assert((a + seq![OPEN_BYTE]) + (inner + seq![CLOSE_BYTE]) =~= a + (
                            seq![OPEN_BYTE] + inner + seq![CLOSE_BYTE]));
                            assert(commands(s.subrange(start as int, end2 as int)) == render_seq(
                                out@.push(Instruction::Loop(body)),
                            ));
                        }
                        out.push(Instruction::Loop(body));
                        pos = end2;
                    } else {
                        proof {
                            lemma_render_seq_balanced(body@);
                            lemma_tail_open(s, start as int, pos as int, out@);
                        }
                        return Err(Error::UnexpectedEof);
                    }
                },
            }
        } else if b == FORWARD_BYTE || b == BACKWARD_BYTE || b == PLUS_BYTE || b == MINUS_BYTE || b
            == DOT_BYTE || b == COMMA_BYTE {
            let instr = if b == FORWARD_BYTE {
                Instruction::IncrementPtr
            } else if b == BACKWARD_BYTE {
                Instruction::DecrementPtr
            } else if b == PLUS_BYTE {
                Instruction::IncrementValue
            } else if b == MINUS_BYTE {
                Instruction::DecrementValue
            } else if b == DOT_BYTE {
                Instruction::Output
            } else {
                Instruction::Input
            };
            proof {
                lemma_commands_snoc(s, start as int, pos as int);
                lemma_render_seq_push(out@, instr);
                assert(render_instr(instr) == seq![b]);
            }
            out.push(instr);
            pos = pos + 1;
        } else {
            proof {
                lemma_commands_snoc(s, start as int, pos as int);
                assert(render_seq(out@) + Seq::<u8>::empty() =~= render_seq(out@));
            }
            pos = pos + 1;
        }
    }
}

/// After a balanced segment and an opening bracket, a tail whose prefixes
/// are open makes the whole segment's prefixes open, with positive
/// balance: the bracket is never closed.
proof fn lemma_tail_open(s: Seq<u8>, start: int, pos: int, out: Seq<Instruction>)
    requires
        0 <= start <= pos < s.len(),
        s[pos] == OPEN_BYTE,
        commands(s.subrange(start, pos)) == render_seq(out),
        prefixes_open(commands(s.subrange(pos + 1, s.len() as int))),
        nesting(commands(s.subrange(pos + 1, s.len() as int))) >= 0,
    ensures
        prefixes_open(commands(s.subrange(start, s.len() as int))),
        nesting(commands(s.subrange(start, s.len() as int))) > 0,
{
    let a = commands(s.subrange(start, pos));
    let tail = commands(s.subrange(pos + 1, s.len() as int));
    let open = seq![OPEN_BYTE];
    assert(s.subrange(start, s.len() as int) =~= s.subrange(start, pos + 1) + s.subrange(
        pos + 1,
        s.len() as int,
    ));
    lemma_commands_add(s.subrange(start, pos + 1), s.subrange(pos + 1, s.len() as int));
    lemma_commands_snoc(s, start, pos);
    lemma_render_seq_balanced(out);
    lemma_nesting_single(OPEN_BYTE);
    lemma_prefixes_open_single(OPEN_BYTE);
    lemma_prefixes_open_join(open, tail);
    lemma_nesting_add(open, tail);
    lemma_prefixes_open_join(a, open + tail);
    lemma_nesting_add(a, open + tail);
    assert((a + open) + tail =~= a + (open + tail));
    assert(commands(s.subrange(start, s.len() as int)) == a + (open + tail));
}

} // verus!
