use vstd::prelude::*;

verus! {

broadcast use vstd::std_specs::vec::group_vec_axioms;

/// One instruction of the language. `Loop` is the only recursive variant: its
/// body is the fully parsed, balanced block between a pair of brackets. The
/// brackets themselves are structural markers consumed by the parser and are
/// not represented as instructions.
#[derive(Debug, PartialEq, Eq)]
pub enum Instruction {
    MoveRight,
    MoveLeft,
    Increment,
    Decrement,
    Output,
    Input,
    Loop(Vec<Instruction>),
}

/// A structural error found while parsing. The payload is the character index
/// of the offending bracket in the original source text, comments included.
#[derive(Debug, Clone, Copy, PartialEq, Eq, Structural)]
pub enum LexerError {
    UnmatchedOpenBracket(usize),
    UnmatchedCloseBracket(usize),
}

/// The eight instruction-significant characters; every other character is a
/// comment.
pub open spec fn is_cmd(c: char) -> bool {
    c == '>' || c == '<' || c == '+' || c == '-' || c == '.' || c == ',' || c == '[' || c == ']'
}

/// The instruction-significant characters of a source text, in order, each
/// paired with its character index in the original text.
pub open spec fn cmd_tokens(s: Seq<char>) -> Seq<(usize, char)>
    decreases s.len(),
{
    if s.len() == 0 {
        Seq::empty()
    } else {
        let rest = cmd_tokens(s.drop_last());
        if is_cmd(s.last()) {
            rest.push((((s.len() - 1) as usize), s.last()))
        } else {
            rest
        }
    }
}

/// The characters of a token sequence, with the indices dropped.
pub open spec fn chars_of(toks: Seq<(usize, char)>) -> Seq<char> {
    toks.map_values(|t: (usize, char)| t.1)
}

/// Every token carries an instruction-significant character.
pub open spec fn all_cmds(toks: Seq<(usize, char)>) -> bool {
    forall|k: int| 0 <= k < toks.len() ==> is_cmd(#[trigger] toks[k].1)
}

/// The state of the bracket scan after some prefix of the token stream:
/// either the indices of the currently open (not yet matched) open brackets,
/// outermost first, or the index of the first close bracket that had no open
/// bracket to match.
#[verifier::ext_equal]
pub ghost enum ScanState {
    Opens(Seq<usize>),
    UnmatchedClose(usize),
}

/// How one token advances the bracket scan. A close error is final: the scan
/// keeps reporting the first unmatched close bracket.
pub open spec fn scan_step(st: ScanState, tok: (usize, char)) -> ScanState {
    match st {
        ScanState::UnmatchedClose(i) => ScanState::UnmatchedClose(i),
        ScanState::Opens(stack) => {
            if tok.1 == '[' {
                ScanState::Opens(stack.push(tok.0))
            } else if tok.1 == ']' {
                if stack.len() == 0 {
                    ScanState::UnmatchedClose(tok.0)
                } else {
                    ScanState::Opens(stack.drop_last())
                }
            } else {
                ScanState::Opens(stack)
            }
        },
    }
}

pub open spec fn scan_from(st: ScanState, toks: Seq<(usize, char)>) -> ScanState
    decreases toks.len(),
{
    if toks.len() == 0 {
        st
    } else {
        scan_from(scan_step(st, toks[0]), toks.drop_first())
    }
}

/// The bracket scan of a whole token stream, started with no open brackets.
/// `Opens(empty)` means the stream is well bracketed.
pub open spec fn scan(toks: Seq<(usize, char)>) -> ScanState {
    scan_from(ScanState::Opens(Seq::empty()), toks)
}

/// The canonical source text of one instruction: its symbol, or for a loop
/// its bracketed body.
pub open spec fn render_inst(i: Instruction) -> Seq<char>
    decreases i,
{
    match i {
        Instruction::MoveRight => seq!['>'],
        Instruction::MoveLeft => seq!['<'],
        Instruction::Increment => seq!['+'],
        Instruction::Decrement => seq!['-'],
        Instruction::Output => seq!['.'],
        Instruction::Input => seq![','],
        Instruction::Loop(body) => seq!['['] + render_insts(body@) + seq![']'],
    }
}

/// The canonical source text of a program: the concatenation of its
/// instructions' texts, with no comments.
pub open spec fn render_insts(p: Seq<Instruction>) -> Seq<char>
    decreases p,
{
    if p.len() == 0 {
        Seq::empty()
    } else {
        render_inst(p[0]) + render_insts(p.drop_first())
    }
}

/// Structural equality of two instructions: the same variant, and for loops
/// structurally equal bodies.
pub open spec fn inst_equal(a: Instruction, b: Instruction) -> bool
    decreases a,
{
    match (a, b) {
        (Instruction::MoveRight, Instruction::MoveRight) => true,
        (Instruction::MoveLeft, Instruction::MoveLeft) => true,
        (Instruction::Increment, Instruction::Increment) => true,
        (Instruction::Decrement, Instruction::Decrement) => true,
        (Instruction::Output, Instruction::Output) => true,
        (Instruction::Input, Instruction::Input) => true,
        (Instruction::Loop(x), Instruction::Loop(y)) => insts_equal(x@, y@),
        _ => false,
    }
}

/// Structural equality of two programs, element by element.
pub open spec fn insts_equal(a: Seq<Instruction>, b: Seq<Instruction>) -> bool
    decreases a,
{
    if a.len() == 0 || b.len() == 0 {
        a.len() == b.len()
    } else {
        inst_equal(a[0], b[0]) && insts_equal(a.drop_first(), b.drop_first())
    }
}

fn is_cmd_char(c: char) -> (r: bool)
    ensures
        r == is_cmd(c),
{
    c == '>' || c == '<' || c == '+' || c == '-' || c == '.' || c == ',' || c == '[' || c == ']'
}

/// Strip the comments from a source text: keep exactly the eight instruction
/// characters, each with its character index in the original text.
pub fn remove_comments(input: &str) -> (toks: Vec<(usize, char)>)
    ensures
        toks@ == cmd_tokens(input@),
{
    let n = input.unicode_len();
    let mut toks: Vec<(usize, char)> = Vec::new();
    let mut i: usize = 0;
    while i < n
        invariant
            n == input@.len(),
            i <= n,
            toks@ == cmd_tokens(input@.take(i as int)),
        decreases n - i,
    {
        let c = input.get_char(i);
        proof {
            assert(input@.take(i + 1 as int).drop_last() =~= input@.take(i as int));
            assert(input@.take(i + 1 as int).last() == input@[i as int]);
        }
        if is_cmd_char(c) {
            toks.push((i, c));
        }
        i = i + 1;
    }
    proof {
        assert(input@.take(n as int) =~= input@);
    }
    toks
}

/// Every token produced by `cmd_tokens` carries an instruction character.
proof fn lemma_cmd_tokens_are_cmds(s: Seq<char>)
    ensures
        all_cmds(cmd_tokens(s)),
    decreases s.len(),
{
    if s.len() > 0 {
        lemma_cmd_tokens_are_cmds(s.drop_last());
        let rest = cmd_tokens(s.drop_last());
        assert forall|k: int| 0 <= k < cmd_tokens(s).len() implies is_cmd(
            #[trigger] cmd_tokens(s)[k].1,
        ) by {
            if k < rest.len() {
                assert(cmd_tokens(s)[k] == rest[k]);
            }
        }
    }
}

proof fn lemma_chars_of_app(a: Seq<(usize, char)>, b: Seq<(usize, char)>)
    ensures
        chars_of(a + b) == chars_of(a) + chars_of(b),
{
    assert(chars_of(a + b) =~= chars_of(a) + chars_of(b));
}

proof fn lemma_chars_of_push(a: Seq<(usize, char)>, t: (usize, char))
    ensures
        chars_of(a.push(t)) == chars_of(a).push(t.1),
{
    assert(chars_of(a.push(t)) =~= chars_of(a).push(t.1));
}

proof fn lemma_scan_from_single(st: ScanState, x: (usize, char))
    ensures
        scan_from(st, seq![x]) == scan_step(st, x),
{
    assert(seq![x][0] == x);
    assert(seq![x].drop_first() =~= Seq::<(usize, char)>::empty());
    assert(scan_from(scan_step(st, x), Seq::<(usize, char)>::empty()) == scan_step(st, x));
}

proof fn lemma_scan_from_app(st: ScanState, t1: Seq<(usize, char)>, t2: Seq<(usize, char)>)
    ensures
        scan_from(st, t1 + t2) == scan_from(scan_from(st, t1), t2),
    decreases t1.len(),
{
    if t1.len() == 0 {
        assert(t1 + t2 =~= t2);
    } else {
        assert((t1 + t2).drop_first() =~= t1.drop_first() + t2);
        lemma_scan_from_app(scan_step(st, t1[0]), t1.drop_first(), t2);
    }
}

proof fn lemma_scan_snoc(t: Seq<(usize, char)>, p: int)
    requires
        0 <= p < t.len(),
    ensures
        scan(t.take(p + 1)) == scan_step(scan(t.take(p)), t[p]),
{
    assert(t.take(p + 1) =~= t.take(p) + seq![t[p]]);
    lemma_scan_from_app(ScanState::Opens(Seq::empty()), t.take(p), seq![t[p]]);
    lemma_scan_from_single(scan(t.take(p)), t[p]);
}

proof fn lemma_scan_from_stuck(i: usize, t: Seq<(usize, char)>)
    ensures
        scan_from(ScanState::UnmatchedClose(i), t) == ScanState::UnmatchedClose(i),
    decreases t.len(),
{
    if t.len() > 0 {
        lemma_scan_from_stuck(i, t.drop_first());
    }
}

proof fn lemma_scan_fail_final(t: Seq<(usize, char)>, p: int, i: usize)
    requires
        0 <= p <= t.len(),
        scan(t.take(p)) == ScanState::UnmatchedClose(i),
    ensures
        scan(t) == ScanState::UnmatchedClose(i),
{
    assert(t =~= t.take(p) + t.skip(p));
    lemma_scan_from_app(ScanState::Opens(Seq::empty()), t.take(p), t.skip(p));
    lemma_scan_from_stuck(i, t.skip(p));
}

proof fn lemma_render_insts_snoc(s: Seq<Instruction>, i: Instruction)
    ensures
        render_insts(s.push(i)) == render_insts(s) + render_inst(i),
    decreases s.len(),
{
    if s.len() == 0 {
        assert(s.push(i)[0] == i);
        assert(s.push(i).drop_first() =~= Seq::<Instruction>::empty());
        assert(render_insts(Seq::<Instruction>::empty()) == Seq::<char>::empty());
        assert(render_insts(s.push(i)) == render_inst(i) + Seq::<char>::empty());
        assert(render_inst(i) + Seq::<char>::empty() =~= render_inst(i));
        assert(render_insts(s) + render_inst(i) =~= render_inst(i));
    } else {
        assert(s.push(i)[0] == s[0]);
        assert(s.push(i).drop_first() =~= s.drop_first().push(i));
        lemma_render_insts_snoc(s.drop_first(), i);
        assert(render_inst(s[0]) + (render_insts(s.drop_first()) + render_inst(i)) =~= (
        render_inst(s[0]) + render_insts(s.drop_first())) + render_inst(i));
    }
}

/// One block of the recursive descent: consume tokens until the close bracket
/// that ends the enclosing loop (when `open_brackets` is nonempty on entry) or
/// until the end of the stream. `pos` is the next token to read and
/// `open_brackets` holds the source indices of the currently open brackets,
/// exactly as the bracket scan of the consumed prefix describes. On an error
/// the stack is scratch; `parse` owns it and discards it.
pub fn parse_block(
    toks: &Vec<(usize, char)>,
    pos: &mut usize,
    open_brackets: &mut Vec<usize>,
) -> (r: Result<Vec<Instruction>, LexerError>)
    requires
        *old(pos) <= toks@.len(),
        all_cmds(toks@),
        scan(toks@.take(*old(pos) as int)) == ScanState::Opens(old(open_brackets)@),
    ensures
        *old(pos) <= *final(pos) <= toks@.len(),
        ({
            match r {
                Ok(insts) => {
                    if old(open_brackets)@.len() == 0 {
                        &&& *final(pos) == toks@.len()
                        &&& final(open_brackets)@ == old(open_brackets)@
                        &&& scan(toks@) == ScanState::Opens(Seq::<usize>::empty())
                        &&& chars_of(toks@.subrange(*old(pos) as int, *final(pos) as int))
                            == render_insts(insts@)
                    } else {
                        &&& final(open_brackets)@ == old(open_brackets)@.drop_last()
                        &&& scan(toks@.take(*final(pos) as int)) == ScanState::Opens(
                            final(open_brackets)@,
                        )
                        &&& chars_of(toks@.subrange(*old(pos) as int, *final(pos) as int))
                            == render_insts(insts@).push(']')
                    }
                },
                Err(LexerError::UnmatchedCloseBracket(i)) => scan(toks@)
                    == ScanState::UnmatchedClose(i),
                Err(LexerError::UnmatchedOpenBracket(i)) => scan(toks@) matches ScanState::Opens(
                    stk,
                ) && stk.len() > 0 && stk.last() == i,
            }
        }),
    decreases toks@.len() - *old(pos),
{
    let ghost start = *pos;
    let ghost stack0 = open_brackets@;
    let mut instructions: Vec<Instruction> = Vec::new();
    let n = toks.len();
    while *pos < n
        invariant
            n == toks@.len(),
            start == *old(pos),
            stack0 == old(open_brackets)@,
            start <= *pos <= n,
            all_cmds(toks@),
            open_brackets@ == stack0,
            scan(toks@.take(*pos as int)) == ScanState::Opens(stack0),
            chars_of(toks@.subrange(start as int, *pos as int)) == render_insts(instructions@),
        decreases n - *pos,
    {
        let p = *pos;
        let (i, c) = toks[p];
        proof {
            lemma_scan_snoc(toks@, p as int);
        }
        if c == '[' {
            open_brackets.push(i);
            *pos = p + 1;
            let body = match parse_block(toks, pos, open_brackets) {
                Ok(body) => body,
                Err(e) => {
                    return Err(e);
                },
            };
            proof {
                let q = *pos as int;
                let part_a = toks@.subrange(start as int, p as int);
                let part_b = seq![toks@[p as int]];
                let part_c = toks@.subrange(p + 1, q);
                assert(toks@.subrange(start as int, q) =~= part_a + part_b + part_c);
                lemma_chars_of_app(part_a + part_b, part_c);
                lemma_chars_of_app(part_a, part_b);
                assert(chars_of(part_b) =~= seq!['[']);
                assert(render_insts(body@).push(']') =~= render_insts(body@) + seq![']']);
                let li = Instruction::Loop(body);
                assert(render_inst(li) == seq!['['] + render_insts(body@) + seq![']']);
                lemma_render_insts_snoc(instructions@, li);
                assert(chars_of(part_a) + chars_of(part_b) + chars_of(part_c)
                    =~= render_insts(instructions@) + render_inst(li));
                assert(stack0.push(i).drop_last() =~= stack0);
            }
            instructions.push(Instruction::Loop(body));
        } else if c == ']' {
            if open_brackets.len() == 0 {
                proof {
                    assert(scan(toks@.take(p + 1)) == ScanState::UnmatchedClose(i));
                    lemma_scan_fail_final(toks@, p + 1, i);
                }
                return Err(LexerError::UnmatchedCloseBracket(i));
            }
            open_brackets.pop();
            *pos = p + 1;
            proof {
                assert(toks@[p as int].1 == ']');
                assert(toks@.subrange(start as int, p + 1) =~= toks@.subrange(
                    start as int,
                    p as int,
                ).push(toks@[p as int]));
                lemma_chars_of_push(toks@.subrange(start as int, p as int), toks@[p as int]);
            }
            return Ok(instructions);
        } else {
            let leaf = if c == '>' {
                Instruction::MoveRight
            } else if c == '<' {
                Instruction::MoveLeft
            } else if c == '+' {
                Instruction::Increment
            } else if c == '-' {
                Instruction::Decrement
            } else if c == '.' {
                Instruction::Output
            } else {
                Instruction::Input
            };
            proof {
                assert(is_cmd(toks@[p as int].1));
                assert(render_inst(leaf) =~= seq![c]);
                lemma_render_insts_snoc(instructions@, leaf);
                assert(toks@.subrange(start as int, p + 1) =~= toks@.subrange(
                    start as int,
                    p as int,
                ).push(toks@[p as int]));
                lemma_chars_of_push(toks@.subrange(start as int, p as int), toks@[p as int]);
                assert(render_insts(instructions@).push(c) =~= render_insts(instructions@)
                    + render_inst(leaf));
            }
            instructions.push(leaf);
            *pos = p + 1;
        }
    }
    proof {
        assert(toks@.take(n as int) =~= toks@);
    }
    if let Some(index) = open_brackets.pop() {
        return Err(LexerError::UnmatchedOpenBracket(index));
    }
    Ok(instructions)
}

/// Parse a source text into a program. Comments are dropped first; the result
/// is exactly the program whose canonical source is the comment-stripped text.
/// Parsing fails if and only if the brackets do not match: an unmatched close
/// bracket is reported at the first offender, an unmatched open bracket at the
/// most recently opened bracket that was never closed, both as character
/// indices into the original text.
pub fn parse(code: &str) -> (r: Result<Vec<Instruction>, LexerError>)
    ensures
        r is Ok <==> scan(cmd_tokens(code@)) == ScanState::Opens(Seq::<usize>::empty()),
        ({
            match r {
                Ok(insts) => render_insts(insts@) == chars_of(cmd_tokens(code@)),
                Err(LexerError::UnmatchedCloseBracket(i)) => scan(cmd_tokens(code@))
                    == ScanState::UnmatchedClose(i),
                Err(LexerError::UnmatchedOpenBracket(i)) => scan(cmd_tokens(code@))
                    matches ScanState::Opens(stk) && stk.len() > 0 && stk.last() == i,
            }
        }),
{
    let toks = remove_comments(code);
    let mut pos: usize = 0;
    let mut open_brackets: Vec<usize> = Vec::new();
    proof {
        lemma_cmd_tokens_are_cmds(code@);
        assert(toks@.take(0) =~= Seq::<(usize, char)>::empty());
    }
    let r = parse_block(&toks, &mut pos, &mut open_brackets);
    proof {
        if r is Ok {
            assert(toks@.subrange(0, toks@.len() as int) =~= toks@);
        }
    }
    r
}

/// Net bracket depth contributed by one character.
pub open spec fn bracket_delta(c: char) -> int {
    if c == '[' {
        1
    } else if c == ']' {
        -1
    } else {
        0
    }
}

/// Open brackets minus close brackets over a character sequence.
pub open spec fn net(cs: Seq<char>) -> int
    decreases cs.len(),
{
    if cs.len() == 0 {
        0
    } else {
        net(cs.drop_last()) + bracket_delta(cs.last())
    }
}

/// No prefix closes more brackets than it opens.
pub open spec fn nonneg_prefixes(cs: Seq<char>) -> bool {
    forall|k: int| 0 <= k <= cs.len() ==> net(#[trigger] cs.take(k)) >= 0
}

proof fn lemma_net_single(c: char)
    ensures
        net(seq![c]) == bracket_delta(c),
{
    assert(seq![c].drop_last() =~= Seq::<char>::empty());
    assert(net(Seq::<char>::empty()) == 0);
    assert(seq![c].last() == c);
}

proof fn lemma_net_push(a: Seq<char>, c: char)
    ensures
        net(a.push(c)) == net(a) + bracket_delta(c),
{
    assert(a.push(c).drop_last() =~= a);
}

proof fn lemma_net_app(a: Seq<char>, b: Seq<char>)
    ensures
        net(a + b) == net(a) + net(b),
    decreases b.len(),
{
    if b.len() == 0 {
        assert(a + b =~= a);
    } else {
        assert((a + b).drop_last() =~= a + b.drop_last());
        assert((a + b).last() == b.last());
        lemma_net_app(a, b.drop_last());
    }
}

/// The first character of an instruction's canonical source, which identifies
/// its variant.
pub open spec fn head_symbol(i: Instruction) -> char {
    match i {
        Instruction::MoveRight => '>',
        Instruction::MoveLeft => '<',
        Instruction::Increment => '+',
        Instruction::Decrement => '-',
        Instruction::Output => '.',
        Instruction::Input => ',',
        Instruction::Loop(_) => '[',
    }
}

proof fn lemma_render_inst_head(i: Instruction)
    ensures
        render_inst(i).len() >= 1,
        render_inst(i)[0] == head_symbol(i),
        !(i matches Instruction::Loop(_)) ==> render_inst(i) == seq![head_symbol(i)],
{
    match i {
        Instruction::Loop(b) => {
            assert(render_inst(i)[0] == '[');
        },
        _ => {},
    }
}

proof fn lemma_render_inst_depth(i: Instruction)
    ensures
        net(render_inst(i)) == 0,
        nonneg_prefixes(render_inst(i)),
    decreases i,
{
    match i {
        Instruction::Loop(b) => {
            lemma_render_insts_depth(b@);
            let rb = render_insts(b@);
            let whole = render_inst(i);
            lemma_net_single('[');
            lemma_net_app(seq!['['], rb);
            lemma_net_push(seq!['['] + rb, ']');
            assert(whole =~= (seq!['['] + rb).push(']'));
            assert(net(whole) == 0);
            assert forall|k: int| 0 <= k <= whole.len() implies net(#[trigger] whole.take(k))
                >= 0 by {
                if k == 0 {
                    assert(whole.take(0) =~= Seq::<char>::empty());
                } else if k <= 1 + rb.len() {
                    assert(whole.take(k) =~= seq!['['] + rb.take(k - 1));
                    lemma_net_app(seq!['['], rb.take(k - 1));
                    assert(net(rb.take(k - 1)) >= 0);
                } else {
                    assert(whole.take(k) =~= whole);
                }
            }
        },
        Instruction::MoveRight => {
            lemma_single_nonbracket_depth('>');
        },
        Instruction::MoveLeft => {
            lemma_single_nonbracket_depth('<');
        },
        Instruction::Increment => {
            lemma_single_nonbracket_depth('+');
        },
        Instruction::Decrement => {
            lemma_single_nonbracket_depth('-');
        },
        Instruction::Output => {
            lemma_single_nonbracket_depth('.');
        },
        Instruction::Input => {
            lemma_single_nonbracket_depth(',');
        },
    }
}

proof fn lemma_single_nonbracket_depth(c: char)
    requires
        c != '[',
        c != ']',
    ensures
        net(seq![c]) == 0,
        nonneg_prefixes(seq![c]),
{
    lemma_net_single(c);
    assert forall|k: int| 0 <= k <= seq![c].len() implies net(#[trigger] seq![c].take(k)) >= 0 by {
        if k == 0 {
            assert(seq![c].take(0) =~= Seq::<char>::empty());
        } else {
            assert(seq![c].take(k) =~= seq![c]);
        }
    }
}

proof fn lemma_render_insts_depth(p: Seq<Instruction>)
    ensures
        net(render_insts(p)) == 0,
        nonneg_prefixes(render_insts(p)),
    decreases p,
{
    if p.len() == 0 {
        assert forall|k: int| 0 <= k <= render_insts(p).len() implies net(
            #[trigger] render_insts(p).take(k),
        ) >= 0 by {
            assert(render_insts(p).take(k) =~= Seq::<char>::empty());
        }
    } else {
        lemma_render_inst_depth(p[0]);
        lemma_render_insts_depth(p.drop_first());
        let r0 = render_inst(p[0]);
        let rest = render_insts(p.drop_first());
        lemma_net_app(r0, rest);
        assert forall|k: int| 0 <= k <= render_insts(p).len() implies net(
            #[trigger] render_insts(p).take(k),
        ) >= 0 by {
            if k <= r0.len() {
                assert(render_insts(p).take(k) =~= r0.take(k));
                assert(net(r0.take(k)) >= 0);
            } else {
                assert(render_insts(p).take(k) =~= r0 + rest.take(k - r0.len()));
                lemma_net_app(r0, rest.take(k - r0.len()));
                assert(net(rest.take(k - r0.len())) >= 0);
            }
        }
    }
}

proof fn lemma_render_inst_cmds(i: Instruction)
    ensures
        forall|k: int| 0 <= k < render_inst(i).len() ==> is_cmd(#[trigger] render_inst(i)[k]),
    decreases i,
{
    match i {
        Instruction::Loop(b) => {
            lemma_render_insts_cmds(b@);
            let rb = render_insts(b@);
            let front = seq!['['] + rb;
            assert forall|k: int| 0 <= k < render_inst(i).len() implies is_cmd(
                #[trigger] render_inst(i)[k],
            ) by {
                if k < front.len() {
                    assert(render_inst(i)[k] == front[k]);
                    if k > 0 {
                        assert(front[k] == rb[k - 1]);
                    }
                } else {
                    assert(render_inst(i)[k] == seq![']'][k - front.len()]);
                }
            }
        },
        _ => {
            lemma_render_inst_head(i);
            assert(is_cmd(head_symbol(i)));
        },
    }
}

proof fn lemma_render_insts_cmds(p: Seq<Instruction>)
    ensures
        forall|k: int| 0 <= k < render_insts(p).len() ==> is_cmd(#[trigger] render_insts(p)[k]),
    decreases p,
{
    if p.len() > 0 {
        lemma_render_inst_cmds(p[0]);
        lemma_render_insts_cmds(p.drop_first());
        let r0 = render_inst(p[0]);
        let rest = render_insts(p.drop_first());
        assert forall|k: int| 0 <= k < render_insts(p).len() implies is_cmd(
            #[trigger] render_insts(p)[k],
        ) by {
            if k < r0.len() {
                assert(render_insts(p)[k] == r0[k]);
            } else {
                assert(render_insts(p)[k] == rest[k - r0.len()]);
            }
        }
    }
}

proof fn lemma_cmd_tokens_id(s: Seq<char>)
    requires
        forall|k: int| 0 <= k < s.len() ==> is_cmd(#[trigger] s[k]),
    ensures
        chars_of(cmd_tokens(s)) == s,
    decreases s.len(),
{
    if s.len() == 0 {
        assert(chars_of(cmd_tokens(s)) =~= s);
    } else {
        lemma_cmd_tokens_id(s.drop_last());
        assert(is_cmd(s.last()));
        lemma_chars_of_push(cmd_tokens(s.drop_last()), (((s.len() - 1) as usize), s.last()));
        assert(chars_of(cmd_tokens(s)) =~= s);
    }
}

proof fn lemma_scan_from_render_inst(i: Instruction, toks: Seq<(usize, char)>, stk: Seq<usize>)
    requires
        chars_of(toks) == render_inst(i),
    ensures
        scan_from(ScanState::Opens(stk), toks) == ScanState::Opens(stk),
    decreases i,
{
    match i {
        Instruction::Loop(b) => {
            let m = toks.len() as int;
            assert(toks[0].1 == chars_of(toks)[0]);
            assert(toks[m - 1].1 == chars_of(toks)[m - 1]);
            let rb = render_insts(b@);
            let front = seq!['['] + rb;
            assert(chars_of(toks).len() == toks.len());
            assert(m == rb.len() + 2);
            assert(chars_of(toks)[0] == '[') by {
                assert(render_inst(i)[0] == front[0]);
            }
            assert(chars_of(toks)[m - 1] == ']') by {
                assert(render_inst(i)[m - 1] == seq![']'][m - 1 - front.len()]);
            }
            let mid = toks.subrange(1, m - 1);
            assert forall|j: int| 0 <= j < rb.len() implies mid[j].1 == rb[j] by {
                assert(chars_of(toks)[j + 1] == toks[j + 1].1);
                assert(render_inst(i)[j + 1] == front[j + 1]);
                assert(front[j + 1] == rb[j]);
            }
            assert(chars_of(mid) =~= rb);
            assert(toks =~= seq![toks[0]] + mid + seq![toks[m - 1]]);
            lemma_scan_from_app(ScanState::Opens(stk), seq![toks[0]] + mid, seq![toks[m - 1]]);
            lemma_scan_from_app(ScanState::Opens(stk), seq![toks[0]], mid);
            lemma_scan_from_single(ScanState::Opens(stk), toks[0]);
            lemma_scan_from_render_insts(b@, mid, stk.push(toks[0].0));
            lemma_scan_from_single(ScanState::Opens(stk.push(toks[0].0)), toks[m - 1]);
            assert(stk.push(toks[0].0).drop_last() =~= stk);
        },
        _ => {
            lemma_render_inst_head(i);
            assert(toks.len() == 1);
            assert(toks =~= seq![toks[0]]);
            lemma_scan_from_single(ScanState::Opens(stk), toks[0]);
            assert(toks[0].1 == chars_of(toks)[0]);
        },
    }
}

proof fn lemma_scan_from_render_insts(p: Seq<Instruction>, toks: Seq<(usize, char)>, stk: Seq<usize>)
    requires
        chars_of(toks) == render_insts(p),
    ensures
        scan_from(ScanState::Opens(stk), toks) == ScanState::Opens(stk),
    decreases p,
{
    assert(chars_of(toks).len() == toks.len());
    if p.len() == 0 {
        assert(toks.len() == 0);
        assert(toks =~= Seq::<(usize, char)>::empty());
    } else {
        let r0 = render_inst(p[0]);
        let rest = render_insts(p.drop_first());
        let m = r0.len() as int;
        assert(render_insts(p) == r0 + rest);
        assert(m <= toks.len());
        let t1 = toks.take(m);
        let t2 = toks.skip(m);
        assert forall|j: int| 0 <= j < m implies t1[j].1 == r0[j] by {
            assert(chars_of(toks)[j] == toks[j].1);
            assert((r0 + rest)[j] == r0[j]);
        }
        assert(chars_of(t1) =~= r0);
        assert forall|j: int| 0 <= j < t2.len() implies t2[j].1 == rest[j] by {
            assert(chars_of(toks)[m + j] == toks[m + j].1);
            assert((r0 + rest)[m + j] == rest[j]);
        }
        assert(chars_of(t2) =~= rest);
        assert(toks =~= t1 + t2);
        lemma_scan_from_app(ScanState::Opens(stk), t1, t2);
        lemma_scan_from_render_inst(p[0], t1, stk);
        lemma_scan_from_render_insts(p.drop_first(), t2, stk);
    }
}

/// Law: the canonical source of any program, given back to the parser, is
/// accepted: it strips to itself and its bracket scan ends with no open and
/// no unmatched bracket, so by `parse`'s contract parsing it succeeds.
pub proof fn lemma_render_parses(prog: Seq<Instruction>)
    ensures
        chars_of(cmd_tokens(render_insts(prog))) == render_insts(prog),
        scan(cmd_tokens(render_insts(prog))) == ScanState::Opens(Seq::<usize>::empty()),
{
    lemma_render_insts_cmds(prog);
    lemma_cmd_tokens_id(render_insts(prog));
    lemma_scan_from_render_insts(prog, cmd_tokens(render_insts(prog)), Seq::empty());
}

proof fn lemma_close_split_shorter(b1: Seq<char>, b2: Seq<char>, u: Seq<char>, v: Seq<char>)
    requires
        b1 + seq![']'] + u == b2 + seq![']'] + v,
        net(b1) == 0,
        b1.len() < b2.len(),
    ensures
        net(b2.take(b1.len() as int + 1)) == -1,
{
    let w1 = b1 + seq![']'] + u;
    let w2 = b2 + seq![']'] + v;
    let l = b1.len() as int;
    assert(b2.take(l) =~= b1) by {
        assert forall|j: int| 0 <= j < l implies b2[j] == b1[j] by {
            assert(w1[j] == b1[j]);
            assert(w2[j] == b2[j]);
        }
    }
    assert(b2[l] == ']') by {
        assert(w1[l] == (b1 + seq![']'])[l]);
        assert(w2[l] == b2[l]);
    }
    assert(b2.take(l + 1) =~= b2.take(l).push(b2[l]));
    lemma_net_push(b2.take(l), b2[l]);
    assert(net(b2.take(l + 1)) == -1);
}

proof fn lemma_render_close_split(b1: Seq<char>, b2: Seq<char>, u: Seq<char>, v: Seq<char>)
    requires
        b1 + seq![']'] + u == b2 + seq![']'] + v,
        net(b1) == 0,
        nonneg_prefixes(b1),
        net(b2) == 0,
        nonneg_prefixes(b2),
    ensures
        b1 == b2,
        u == v,
{
    let w1 = b1 + seq![']'] + u;
    let w2 = b2 + seq![']'] + v;
    if b1.len() < b2.len() {
        lemma_close_split_shorter(b1, b2, u, v);
        assert(net(b2.take(b1.len() as int + 1)) >= 0);
    } else if b2.len() < b1.len() {
        lemma_close_split_shorter(b2, b1, v, u);
        assert(net(b1.take(b2.len() as int + 1)) >= 0);
    } else {
        let l = b1.len() as int;
        assert(w1.len() == w2.len());
        assert(u.len() == v.len());
        assert(b1 =~= b2) by {
            assert forall|j: int| 0 <= j < l implies b1[j] == b2[j] by {
                assert(w1[j] == b1[j]);
                assert(w2[j] == b2[j]);
            }
        }
        assert(u =~= v) by {
            assert forall|j: int| 0 <= j < u.len() implies u[j] == v[j] by {
                assert(w1[l + 1 + j] == u[j]);
                assert(w2[l + 1 + j] == v[j]);
            }
        }
    }
}

proof fn lemma_render_insts_injective(a: Seq<Instruction>, b: Seq<Instruction>)
    requires
        render_insts(a) == render_insts(b),
    ensures
        insts_equal(a, b),
    decreases a,
{
    let ra = render_insts(a);
    let rb = render_insts(b);
    if a.len() == 0 || b.len() == 0 {
        if a.len() == 0 && b.len() != 0 {
            lemma_render_inst_head(b[0]);
            assert(rb.len() >= 1);
            assert(false);
        }
        if b.len() == 0 && a.len() != 0 {
            lemma_render_inst_head(a[0]);
            assert(ra.len() >= 1);
            assert(false);
        }
    } else {
        lemma_render_inst_head(a[0]);
        lemma_render_inst_head(b[0]);
        assert(ra[0] == render_inst(a[0])[0]);
        assert(rb[0] == render_inst(b[0])[0]);
        assert(head_symbol(a[0]) == head_symbol(b[0]));
        if a[0] matches Instruction::Loop(_) {
            match (a[0], b[0]) {
                (Instruction::Loop(x), Instruction::Loop(y)) => {
                    let rx = render_insts(x@);
                    let ry = render_insts(y@);
                    let ta = render_insts(a.drop_first());
                    let tb = render_insts(b.drop_first());
                    assert(ra.skip(1) =~= rx + seq![']'] + ta);
                    assert(rb.skip(1) =~= ry + seq![']'] + tb);
                    lemma_render_insts_depth(x@);
                    lemma_render_insts_depth(y@);
                    lemma_render_close_split(rx, ry, ta, tb);
                    lemma_render_insts_injective(x@, y@);
                    lemma_render_insts_injective(a.drop_first(), b.drop_first());
                    assert(inst_equal(a[0], b[0]));
                },
                _ => {
                    assert(false);
                },
            }
        } else {
            assert(!(b[0] matches Instruction::Loop(_)));
            assert(render_inst(a[0]) == render_inst(b[0]));
            assert(ra.skip(1) =~= render_insts(a.drop_first()));
            assert(rb.skip(1) =~= render_insts(b.drop_first()));
            lemma_render_insts_injective(a.drop_first(), b.drop_first());
            assert(inst_equal(a[0], b[0]));
        }
    }
}

/// Law: parsing is idempotent on structural shape. Any program that renders
/// to the same canonical source as `prog` -- in particular the result of
/// re-parsing `prog`'s rendered source, by `parse`'s contract -- is
/// structurally the same instruction tree.
pub proof fn lemma_reparse_same(prog: Seq<Instruction>, reparsed: Seq<Instruction>)
    requires
        render_insts(reparsed) == chars_of(cmd_tokens(render_insts(prog))),
    ensures
        insts_equal(reparsed, prog),
{
    lemma_render_parses(prog);
    lemma_render_insts_injective(reparsed, prog);
}

/// Law: a source text with no instruction characters parses to the empty
/// program: it strips to nothing, the scan accepts it, and any program that
/// renders to the stripped text -- the parse result, by `parse`'s contract --
/// is empty.
pub proof fn lemma_comment_only_parses_empty(s: Seq<char>, prog: Seq<Instruction>)
    requires
        forall|k: int| 0 <= k < s.len() ==> !is_cmd(#[trigger] s[k]),
    ensures
        cmd_tokens(s) == Seq::<(usize, char)>::empty(),
        scan(cmd_tokens(s)) == ScanState::Opens(Seq::<usize>::empty()),
        render_insts(prog) == chars_of(cmd_tokens(s)) ==> prog == Seq::<Instruction>::empty(),
    decreases s.len(),
{
    if s.len() == 0 {
        assert(cmd_tokens(s) =~= Seq::<(usize, char)>::empty());
    } else {
        lemma_comment_only_parses_empty(s.drop_last(), prog);
        assert(!is_cmd(s.last()));
        assert(cmd_tokens(s) =~= Seq::<(usize, char)>::empty());
    }
    if render_insts(prog) == chars_of(cmd_tokens(s)) && prog.len() != 0 {
        lemma_render_inst_head(prog[0]);
        assert(render_insts(prog)[0] == render_inst(prog[0])[0]);
        assert(chars_of(cmd_tokens(s)) =~= Seq::<char>::empty());
        assert(false);
    }
    if render_insts(prog) == chars_of(cmd_tokens(s)) {
        assert(prog =~= Seq::<Instruction>::empty());
    }
}

/// Relies on `String::push` from std: it appends exactly the given character.
#[verifier::external_body]
pub(crate) fn push_char(out: &mut String, c: char)
    ensures
        final(out)@ == old(out)@.push(c),
{
    out.push(c);
}

fn append_source(i: &Instruction, out: &mut String)
    ensures
        final(out)@ == old(out)@ + render_inst(*i),
    decreases *i,
{
    match i {
        Instruction::MoveRight => {
            push_char(out, '>');
            proof {
                assert(old(out)@.push('>') =~= old(out)@ + render_inst(*i));
            }
        },
        Instruction::MoveLeft => {
            push_char(out, '<');
            proof {
                assert(old(out)@.push('<') =~= old(out)@ + render_inst(*i));
            }
        },
        Instruction::Increment => {
            push_char(out, '+');
            proof {
                assert(old(out)@.push('+') =~= old(out)@ + render_inst(*i));
            }
        },
        Instruction::Decrement => {
            push_char(out, '-');
            proof {
                assert(old(out)@.push('-') =~= old(out)@ + render_inst(*i));
            }
        },
        Instruction::Output => {
            push_char(out, '.');
            proof {
                assert(old(out)@.push('.') =~= old(out)@ + render_inst(*i));
            }
        },
        Instruction::Input => {
            push_char(out, ',');
            proof {
                assert(old(out)@.push(',') =~= old(out)@ + render_inst(*i));
            }
        },
        Instruction::Loop(body) => {
            let ghost out0 = out@;
            push_char(out, '[');
            proof {
                assert(body@.take(0) =~= Seq::<Instruction>::empty());
                assert(out0.push('[') =~= out0 + seq!['['] + render_insts(body@.take(0)));
            }
            let n = body.len();
            let mut k: usize = 0;
            while k < n
                invariant
                    n == body@.len(),
                    k <= n,
                    *i == Instruction::Loop(*body),
                    out@ == out0 + seq!['['] + render_insts(body@.take(k as int)),
                decreases n - k,
            {
                proof {
                    assert(decreases_to!(*i => i->Loop_0));
                    assert(i->Loop_0 == *body);
                    assert(decreases_to!(*body => body@));
                    assert(decreases_to!(body@ => body@[k as int]));
                }
                append_source(&body[k], out);
                proof {
                    assert(body@.take(k + 1) =~= body@.take(k as int).push(body@[k as int]));
                    lemma_render_insts_snoc(body@.take(k as int), body@[k as int]);
                    assert((out0 + seq!['['] + render_insts(body@.take(k as int))) + render_inst(
                        body@[k as int],
                    ) =~= out0 + seq!['['] + render_insts(body@.take(k + 1)));
                }
                k = k + 1;
            }
            push_char(out, ']');
            proof {
                assert(body@.take(n as int) =~= body@);
                assert((out0 + seq!['['] + render_insts(body@)).push(']') =~= out0 + render_inst(
                    *i,
                ));
            }
        },
    }
}

impl Instruction {
    /// The canonical source text of this instruction: its symbol, with a
    /// loop's body bracketed.
    pub fn to_source(&self) -> (r: String)
        ensures
            r@ == render_inst(*self),
    {
        let mut out = String::new();
        append_source(self, &mut out);
        proof {
            assert(Seq::<char>::empty() + render_inst(*self) =~= render_inst(*self));
        }
        out
    }
}

/// The canonical source text of a whole program: its instructions' symbols in
/// order, with no comments. Parsing this text again gives the same program
/// back (see `lemma_render_parses` and `lemma_reparse_same`).
pub fn program_to_source(p: &Vec<Instruction>) -> (r: String)
    ensures
        r@ == render_insts(p@),
{
    let mut out = String::new();
    proof {
        assert(p@.take(0) =~= Seq::<Instruction>::empty());
    }
    let n = p.len();
    let mut k: usize = 0;
    while k < n
        invariant
            n == p@.len(),
            k <= n,
            out@ == render_insts(p@.take(k as int)),
        decreases n - k,
    {
        append_source(&p[k], &mut out);
        proof {
            assert(p@.take(k + 1) =~= p@.take(k as int).push(p@[k as int]));
            lemma_render_insts_snoc(p@.take(k as int), p@[k as int]);
        }
        k = k + 1;
    }
    proof {
        assert(p@.take(n as int) =~= p@);
    }
    out
}

} // verus!
