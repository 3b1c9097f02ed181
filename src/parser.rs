use vstd::prelude::*;

verus! {

/// The eight commands of the language.
#[derive(PartialEq, Eq, Structural, Debug, Clone, Copy)]
pub enum Op {
    Add,
    Sub,
    Left,
    Right,
    Out,
    In,
    JmpZero,
    JmpNonZero,
}

/// The command that a source byte stands for, if any; every other byte is a comment.
pub open spec fn op_of_byte(b: u8) -> Option<Op> {
    if b == 43 {  // '+'
        Some(Op::Add)
    } else if b == 45 {  // '-'
        Some(Op::Sub)
    } else if b == 60 {  // '<'
        Some(Op::Left)
    } else if b == 62 {  // '>'
        Some(Op::Right)
    } else if b == 46 {  // '.'
        Some(Op::Out)
    } else if b == 44 {  // ','
        Some(Op::In)
    } else if b == 91 {  // '['
        Some(Op::JmpZero)
    } else if b == 93 {  // ']'
        Some(Op::JmpNonZero)
    } else {
        None
    }
}

/// The token sequence of a source: its command bytes, in order, comments dropped.
pub open spec fn lex(src: Seq<u8>) -> Seq<Op>
    decreases src.len(),
{
    if src.len() == 0 {
        seq![]
    } else {
        let rest = lex(src.drop_last());
        match op_of_byte(src.last()) {
            Some(op) => rest.push(op),
            None => rest,
        }
    }
}

fn byte_to_op(b: u8) -> (r: Option<Op>)
    ensures
        r == op_of_byte(b),
{
    match b {
        43 => Some(Op::Add),
        45 => Some(Op::Sub),
        60 => Some(Op::Left),
        62 => Some(Op::Right),
        46 => Some(Op::Out),
        44 => Some(Op::In),
        91 => Some(Op::JmpZero),
        93 => Some(Op::JmpNonZero),
        _ => None,
    }
}

/// Scans source bytes into the raw token sequence, skipping non-command bytes.
pub fn tokenize(src: &Vec<u8>) -> (r: Vec<Op>)
    ensures
        r@ == lex(src@),
{
    let mut out: Vec<Op> = Vec::new();
    let mut i: usize = 0;
    while i < src.len()
        invariant
            i <= src.len(),
            out@ == lex(src@.take(i as int)),
        decreases src.len() - i,
    {
        let b = src[i];
        assert(src@.take(i as int + 1).drop_last() =~= src@.take(i as int));
        match byte_to_op(b) {
            Some(op) => out.push(op),
            None => {},
        }
        i += 1;
    }
    assert(src@.take(src.len() as int) =~= src@);
    out
}

/// One instruction: an operator and its operand. For the six simple operators the
/// operand is a repeat count; for `JmpZero` it is the index just past the matching
/// `JmpNonZero`, and for `JmpNonZero` the index just past the matching `JmpZero`.
#[derive(PartialEq, Eq, Structural, Debug, Clone, Copy)]
pub struct Cmd {
    pub operator: Op,
    pub operand: usize,
}

/// A structural fault in the bracket nesting of a program.
#[derive(PartialEq, Eq, Structural, Debug, Clone, Copy)]
pub enum ParseError {
    /// A `[` that is never closed, at this instruction index.
    UnclosedBracket(usize),
    /// A `]` with no open `[`; the index is the number of instructions emitted before it.
    UnopenedBracket(usize),
}

/// The six operators that are not brackets; their operand is a repeat count.
pub open spec fn is_simple(op: Op) -> bool {
    op != Op::JmpZero && op != Op::JmpNonZero
}

/// What the parser has built after a prefix of the tokens: the instruction list,
/// the indices of the `[` instructions still open (innermost last), and a fault.
pub ghost struct ParseState {
    pub cmds: Seq<Cmd>,
    pub open: Seq<usize>,
    pub err: Option<ParseError>,
}

/// The effect of one more token on the parse state. A simple operator extends the
/// last instruction when that one carries the same operator, and starts a new one
/// with count 1 otherwise; `[` opens a loop with a placeholder operand; `]` closes
/// the innermost open loop and patches both jump targets.
pub open spec fn parse_token(s: ParseState, t: Op) -> ParseState {
    if s.err is Some {
        s
    } else if t == Op::JmpZero {
        ParseState {
            cmds: s.cmds.push(Cmd { operator: Op::JmpZero, operand: 0 }),
            open: s.open.push(s.cmds.len() as usize),
            err: None,
        }
    } else if t == Op::JmpNonZero {
        if s.open.len() == 0 {
            ParseState { cmds: s.cmds, open: s.open, err: Some(ParseError::UnopenedBracket(s.cmds.len() as usize)) }
        } else {
            let o = s.open.last();
            ParseState {
                cmds: s.cmds.push(Cmd { operator: Op::JmpNonZero, operand: (o + 1) as usize }).update(
                    o as int,
                    Cmd { operator: Op::JmpZero, operand: (s.cmds.len() + 1) as usize },
                ),
                open: s.open.drop_last(),
                err: None,
            }
        }
    } else if s.cmds.len() > 0 && s.cmds.last().operator == t {
        ParseState {
            cmds: s.cmds.update(
                s.cmds.len() - 1,
                Cmd { operator: t, operand: (s.cmds.last().operand + 1) as usize },
            ),
            open: s.open,
            err: None,
        }
    } else {
        ParseState { cmds: s.cmds.push(Cmd { operator: t, operand: 1 }), open: s.open, err: None }
    }
}

/// The parse state after all of `tokens`, read left to right.
pub open spec fn parse_prefix(tokens: Seq<Op>) -> ParseState
    decreases tokens.len(),
{
    if tokens.len() == 0 {
        ParseState { cmds: seq![], open: seq![], err: None }
    } else {
        parse_token(parse_prefix(tokens.drop_last()), tokens.last())
    }
}

/// The result of parsing a token sequence: the first fault met while reading, else
/// the oldest `[` left open, else the finished instruction list.
pub open spec fn parse_spec(tokens: Seq<Op>) -> Result<Seq<Cmd>, ParseError> {
    let s = parse_prefix(tokens);
    if s.err is Some {
        Err(s.err.unwrap())
    } else if s.open.len() > 0 {
        Err(ParseError::UnclosedBracket(s.open[0]))
    } else {
        Ok(s.cmds)
    }
}

/// Once a fault is met, the rest of the tokens change nothing.
proof fn lemma_fault_sticks(tokens: Seq<Op>, i: int)
    requires
        0 <= i <= tokens.len(),
        parse_prefix(tokens.take(i)).err is Some,
    ensures
        parse_prefix(tokens) == parse_prefix(tokens.take(i)),
    decreases tokens.len(),
{
    if i == tokens.len() {
        assert(tokens.take(i) =~= tokens);
    } else {
        assert(tokens.drop_last().take(i) =~= tokens.take(i));
        lemma_fault_sticks(tokens.drop_last(), i);
    }
}

/// Loop opens minus loop closes among `tokens`.
pub open spec fn depth(tokens: Seq<Op>) -> int
    decreases tokens.len(),
{
    if tokens.len() == 0 {
        0
    } else {
        depth(tokens.drop_last()) + if tokens.last() == Op::JmpZero {
            1int
        } else if tokens.last() == Op::JmpNonZero {
            -1int
        } else {
            0int
        }
    }
}

/// No prefix of `tokens` closes more loops than it opened: no `]` is unmatched.
pub open spec fn never_unopened(tokens: Seq<Op>) -> bool {
    forall|i: int| 0 <= i <= tokens.len() ==> #[trigger] depth(tokens.take(i)) >= 0
}

/// The loops of `tokens` are correctly nested, at whatever depth.
pub open spec fn balanced(tokens: Seq<Op>) -> bool {
    never_unopened(tokens) && depth(tokens) == 0
}

pub open spec fn is_unopened_fault(r: Result<Seq<Cmd>, ParseError>) -> bool {
    match r {
        Err(ParseError::UnopenedBracket(_)) => true,
        _ => false,
    }
}

pub open spec fn is_unclosed_fault(r: Result<Seq<Cmd>, ParseError>) -> bool {
    match r {
        Err(ParseError::UnclosedBracket(_)) => true,
        _ => false,
    }
}

proof fn lemma_prefixes_of_drop_last(tokens: Seq<Op>)
    requires
        tokens.len() > 0,
    ensures
        forall|i: int| 0 <= i < tokens.len() ==> #[trigger] tokens.take(i) == tokens.drop_last().take(i),
        tokens.take(tokens.len() as int) == tokens,
{
    assert forall|i: int| 0 <= i < tokens.len() implies #[trigger] tokens.take(i) == tokens.drop_last().take(i) by {
        assert(tokens.take(i) =~= tokens.drop_last().take(i));
    }
    assert(tokens.take(tokens.len() as int) =~= tokens);
}

/// While no `]` is unmatched, the parser meets no fault and holds one open
/// loop for each level of depth.
proof fn lemma_open_tracks_depth(tokens: Seq<Op>)
    requires
        never_unopened(tokens),
    ensures
        parse_prefix(tokens).err is None,
        parse_prefix(tokens).open.len() == depth(tokens),
    decreases tokens.len(),
{
    if tokens.len() > 0 {
        let t = tokens.drop_last();
        lemma_prefixes_of_drop_last(tokens);
        assert forall|i: int| 0 <= i <= t.len() implies #[trigger] depth(t.take(i)) >= 0 by {
            assert(depth(tokens.take(i)) >= 0);
        }
        lemma_open_tracks_depth(t);
        assert(depth(tokens.take(tokens.len() as int)) >= 0);
    }
}

/// An unmatched `]` makes the parser fault on it.
proof fn lemma_unmatched_close_faults(tokens: Seq<Op>)
    requires
        !never_unopened(tokens),
    ensures
        parse_prefix(tokens).err matches Some(ParseError::UnopenedBracket(_)),
    decreases tokens.len(),
{
    let i = choose|i: int| 0 <= i <= tokens.len() && !(#[trigger] depth(tokens.take(i)) >= 0);
    if tokens.len() == 0 {
        assert(tokens.take(i) =~= tokens);
    } else {
        let t = tokens.drop_last();
        lemma_prefixes_of_drop_last(tokens);
        if never_unopened(t) {
            if i < tokens.len() {
                assert(depth(t.take(i)) >= 0);
            }
            lemma_open_tracks_depth(t);
            assert(t.take(t.len() as int) =~= t);
            assert(depth(t.take(t.len() as int)) >= 0);
        } else {
            lemma_unmatched_close_faults(t);
        }
    }
}

/// Bracket matching does not depend on how deep loops nest: a token sequence
/// whose loops are correctly nested parses, and only such a one does; an
/// unmatched `]` anywhere gives `UnopenedBracket`; with none of those, an
/// unmatched `[` anywhere gives `UnclosedBracket`.
pub proof fn lemma_bracket_matching(tokens: Seq<Op>)
    ensures
        parse_spec(tokens) is Ok <==> balanced(tokens),
        !never_unopened(tokens) ==> is_unopened_fault(parse_spec(tokens)),
        never_unopened(tokens) && depth(tokens) > 0 ==> is_unclosed_fault(parse_spec(tokens)),
{
    if never_unopened(tokens) {
        lemma_open_tracks_depth(tokens);
        assert(tokens.take(tokens.len() as int) =~= tokens);
        assert(depth(tokens.take(tokens.len() as int)) >= 0);
    } else {
        lemma_unmatched_close_faults(tokens);
    }
}

/// The `[` at `i` jumps to just past a `]` that jumps back to just past it.
pub open spec fn zero_paired(cmds: Seq<Cmd>, i: int) -> bool {
    let t = cmds[i].operand as int;
    i + 1 < t <= cmds.len() && cmds[t - 1].operator == Op::JmpNonZero && cmds[t - 1].operand == i + 1
}

/// The `]` at `j` jumps to just past an earlier `[` that jumps to just past it.
pub open spec fn nonzero_paired(cmds: Seq<Cmd>, j: int) -> bool {
    let t = cmds[j].operand as int;
    1 <= t <= j && cmds[t - 1].operator == Op::JmpZero && cmds[t - 1].operand == j + 1
}

/// Every jump instruction of `cmds` is one half of a resolved bracket pair.
pub open spec fn jumps_paired(cmds: Seq<Cmd>) -> bool {
    &&& forall|i: int| 0 <= i < cmds.len() && cmds[i].operator == Op::JmpZero ==> #[trigger] zero_paired(cmds, i)
    &&& forall|j: int| 0 <= j < cmds.len() && cmds[j].operator == Op::JmpNonZero ==> #[trigger] nonzero_paired(cmds, j)
}

/// What holds of the parser's state between tokens: open loops are placeholder
/// `[` instructions in increasing order, a placeholder is an open loop, and every
/// other jump is resolved.
spec fn pairing_inv(s: ParseState) -> bool {
    let cmds = s.cmds;
    let open = s.open;
    &&& forall|k: int| 0 <= k < open.len() ==> open[k] < cmds.len() && #[trigger] cmds[open[k] as int] == (Cmd { operator: Op::JmpZero, operand: 0 })
    &&& forall|k1: int, k2: int| 0 <= k1 < k2 < open.len() ==> open[k1] < open[k2]
    &&& forall|i: int| 0 <= i < cmds.len() && #[trigger] cmds[i] == (Cmd { operator: Op::JmpZero, operand: 0 }) ==> exists|k: int| 0 <= k < open.len() && open[k] == i
    &&& forall|i: int| 0 <= i < cmds.len() && cmds[i].operator == Op::JmpZero && cmds[i].operand != 0 ==> #[trigger] zero_paired(cmds, i)
    &&& forall|j: int| 0 <= j < cmds.len() && cmds[j].operator == Op::JmpNonZero ==> #[trigger] nonzero_paired(cmds, j)
}

proof fn lemma_pairing_close(s: ParseState)
    requires
        s.err is None,
        s.cmds.len() < usize::MAX,
        s.open.len() > 0,
        pairing_inv(s),
    ensures
        pairing_inv(parse_token(s, Op::JmpNonZero)),
{
    let o = s.open.last();
    let l = s.cmds.len();
    let n = parse_token(s, Op::JmpNonZero);
    let c2 = n.cmds;
    assert(s.cmds[s.open[s.open.len() - 1] as int] == Cmd { operator: Op::JmpZero, operand: 0 });
    assert(o < l);
    assert(c2[o as int] == Cmd { operator: Op::JmpZero, operand: (l + 1) as usize });
    assert(c2[l as int] == Cmd { operator: Op::JmpNonZero, operand: (o + 1) as usize });
    assert forall|k: int| 0 <= k < n.open.len() implies n.open[k] < c2.len() && #[trigger] c2[n.open[k] as int] == (Cmd { operator: Op::JmpZero, operand: 0 }) by {
        assert(s.open[k] < s.open[s.open.len() - 1]);
        assert(s.cmds[s.open[k] as int] == Cmd { operator: Op::JmpZero, operand: 0 });
    }
    assert forall|i: int| 0 <= i < c2.len() && #[trigger] c2[i] == (Cmd { operator: Op::JmpZero, operand: 0 }) implies exists|k: int| 0 <= k < n.open.len() && n.open[k] == i by {
        assert(i != o && i != l);
        assert(s.cmds[i] == c2[i]);
        let k = choose|k: int| 0 <= k < s.open.len() && s.open[k] == i;
        assert(k != s.open.len() - 1);
        assert(n.open[k] == i);
    }
    assert forall|i: int| 0 <= i < c2.len() && c2[i].operator == Op::JmpZero && c2[i].operand != 0 implies #[trigger] zero_paired(c2, i) by {
        if i != o {
            assert(i < l);
            assert(s.cmds[i] == c2[i]);
            assert(zero_paired(s.cmds, i));
            let t = s.cmds[i].operand as int;
            assert(t - 1 != o);
            assert(c2[t - 1] == s.cmds[t - 1]);
        }
    }
    assert forall|j: int| 0 <= j < c2.len() && c2[j].operator == Op::JmpNonZero implies #[trigger] nonzero_paired(c2, j) by {
        if j != l {
            assert(j != o);
            assert(s.cmds[j] == c2[j]);
            assert(nonzero_paired(s.cmds, j));
            let t = s.cmds[j].operand as int;
            assert(t - 1 != o);
            assert(c2[t - 1] == s.cmds[t - 1]);
        }
    }
}

proof fn lemma_pairing_simple(s: ParseState, t: Op)
    requires
        s.err is None,
        is_simple(t),
        pairing_inv(s),
    ensures
        pairing_inv(parse_token(s, t)),
{
    let n = parse_token(s, t);
    let c2 = n.cmds;
    let l = s.cmds.len();
    assert forall|k: int| 0 <= k < n.open.len() implies n.open[k] < c2.len() && #[trigger] c2[n.open[k] as int] == (Cmd { operator: Op::JmpZero, operand: 0 }) by {
        assert(s.cmds[s.open[k] as int] == Cmd { operator: Op::JmpZero, operand: 0 });
    }
    assert forall|i: int| 0 <= i < c2.len() && #[trigger] c2[i] == (Cmd { operator: Op::JmpZero, operand: 0 }) implies exists|k: int| 0 <= k < n.open.len() && n.open[k] == i by {
        assert(s.cmds[i] == c2[i]);
    }
    assert forall|i: int| 0 <= i < c2.len() && c2[i].operator == Op::JmpZero && c2[i].operand != 0 implies #[trigger] zero_paired(c2, i) by {
        assert(s.cmds[i] == c2[i]);
        assert(zero_paired(s.cmds, i));
        let u = s.cmds[i].operand as int;
        assert(c2[u - 1] == s.cmds[u - 1]);
    }
    assert forall|j: int| 0 <= j < c2.len() && c2[j].operator == Op::JmpNonZero implies #[trigger] nonzero_paired(c2, j) by {
        assert(s.cmds[j] == c2[j]);
        assert(nonzero_paired(s.cmds, j));
        let u = s.cmds[j].operand as int;
        assert(c2[u - 1] == s.cmds[u - 1]);
    }
}

proof fn lemma_pairing_open(s: ParseState)
    requires
        s.err is None,
        s.cmds.len() < usize::MAX,
        pairing_inv(s),
    ensures
        pairing_inv(parse_token(s, Op::JmpZero)),
{
    let n = parse_token(s, Op::JmpZero);
    let c2 = n.cmds;
    let l = s.cmds.len();
    assert forall|k1: int, k2: int| 0 <= k1 < k2 < n.open.len() implies n.open[k1] < n.open[k2] by {
        assert(s.cmds[s.open[k1] as int] == Cmd { operator: Op::JmpZero, operand: 0 });
    }
    assert forall|k: int| 0 <= k < n.open.len() implies n.open[k] < c2.len() && #[trigger] c2[n.open[k] as int] == (Cmd { operator: Op::JmpZero, operand: 0 }) by {
        if k < s.open.len() {
            assert(s.cmds[s.open[k] as int] == Cmd { operator: Op::JmpZero, operand: 0 });
        } else {
            assert(n.open[k] == l);
            assert(c2[l as int] == Cmd { operator: Op::JmpZero, operand: 0 });
        }
    }
    assert forall|i: int| 0 <= i < c2.len() && #[trigger] c2[i] == (Cmd { operator: Op::JmpZero, operand: 0 }) implies exists|k: int| 0 <= k < n.open.len() && n.open[k] == i by {
        if i == l {
            assert(n.open[s.open.len() as int] == i);
        } else {
            assert(s.cmds[i] == c2[i]);
            let k = choose|k: int| 0 <= k < s.open.len() && s.open[k] == i;
            assert(n.open[k] == i);
        }
    }
    assert forall|i: int| 0 <= i < c2.len() && c2[i].operator == Op::JmpZero && c2[i].operand != 0 implies #[trigger] zero_paired(c2, i) by {
        assert(s.cmds[i] == c2[i]);
        assert(zero_paired(s.cmds, i));
        let u = s.cmds[i].operand as int;
        assert(c2[u - 1] == s.cmds[u - 1]);
    }
    assert forall|j: int| 0 <= j < c2.len() && c2[j].operator == Op::JmpNonZero implies #[trigger] nonzero_paired(c2, j) by {
        assert(s.cmds[j] == c2[j]);
        assert(nonzero_paired(s.cmds, j));
        let u = s.cmds[j].operand as int;
        assert(c2[u - 1] == s.cmds[u - 1]);
    }
}

proof fn lemma_cmds_fewer_than_tokens(tokens: Seq<Op>)
    ensures
        parse_prefix(tokens).cmds.len() <= tokens.len(),
        forall|k: int| 0 <= k < parse_prefix(tokens).open.len() ==> parse_prefix(tokens).open[k] < parse_prefix(tokens).cmds.len(),
    decreases tokens.len(),
{
    if tokens.len() > 0 {
        lemma_cmds_fewer_than_tokens(tokens.drop_last());
        let s = parse_prefix(tokens.drop_last());
        let t = tokens.last();
        if s.err is None && t == Op::JmpNonZero && s.open.len() > 0 {
            assert(s.open[s.open.len() - 1] < s.cmds.len());
            assert(parse_token(s, t).cmds.len() == s.cmds.len() + 1);
        } else if s.err is None && is_simple(t) && s.cmds.len() > 0 && s.cmds.last().operator == t {
            assert(parse_token(s, t).cmds.len() == s.cmds.len());
        }
    }
}

proof fn lemma_pairing_holds(tokens: Seq<Op>)
    requires
        tokens.len() <= usize::MAX,
    ensures
        parse_prefix(tokens).err is None ==> pairing_inv(parse_prefix(tokens)),
    decreases tokens.len(),
{
    if tokens.len() > 0 {
        let s = parse_prefix(tokens.drop_last());
        lemma_pairing_holds(tokens.drop_last());
        lemma_cmds_fewer_than_tokens(tokens.drop_last());
        if s.err is None {
            let t = tokens.last();
            if t == Op::JmpZero {
                lemma_pairing_open(s);
            } else if t == Op::JmpNonZero {
                if s.open.len() > 0 {
                    lemma_pairing_close(s);
                }
            } else {
                lemma_pairing_simple(s, t);
            }
        }
    }
}

/// A parsed instruction list has every jump resolved: each `[` jumps to just
/// past its `]`, and each `]` jumps back to just past its `[`.
pub proof fn lemma_parsed_jumps_paired(tokens: Seq<Op>)
    requires
        tokens.len() <= usize::MAX,
    ensures
        parse_spec(tokens) is Ok ==> jumps_paired(parse_spec(tokens)->Ok_0),
{
    lemma_pairing_holds(tokens);
    let s = parse_prefix(tokens);
    if parse_spec(tokens) is Ok {
        assert forall|i: int| 0 <= i < s.cmds.len() && s.cmds[i].operator == Op::JmpZero implies #[trigger] zero_paired(s.cmds, i) by {
            if s.cmds[i].operand == 0 {
                assert(s.cmds[i] == Cmd { operator: Op::JmpZero, operand: 0 });
            }
        }
    }
}

/// The tokens an instruction stands for: a simple operator repeated its count
/// of times, or the one bracket.
pub open spec fn expand_cmd(c: Cmd) -> Seq<Op> {
    if is_simple(c.operator) {
        Seq::new(c.operand as nat, |i: int| c.operator)
    } else {
        seq![c.operator]
    }
}

/// The tokens an instruction list stands for, in order.
pub open spec fn expand(cmds: Seq<Cmd>) -> Seq<Op>
    decreases cmds.len(),
{
    if cmds.len() == 0 {
        seq![]
    } else {
        expand(cmds.drop_last()) + expand_cmd(cmds.last())
    }
}

/// Every run of a simple operator is one instruction: counts are positive and
/// no two neighbouring simple instructions carry the same operator.
pub open spec fn runs_collapsed(cmds: Seq<Cmd>) -> bool {
    &&& forall|i: int| 0 <= i < cmds.len() && is_simple(cmds[i].operator) ==> #[trigger] cmds[i].operand >= 1
    &&& forall|i: int| 0 < i < cmds.len() ==> #[trigger] starts_run(cmds, i)
}

/// The instruction at `i` is no continuation of a run of the one before it.
pub open spec fn starts_run(cmds: Seq<Cmd>, i: int) -> bool {
    is_simple(cmds[i].operator) ==> cmds[i - 1].operator != cmds[i].operator
}

proof fn lemma_expand_push(cmds: Seq<Cmd>, c: Cmd)
    ensures
        expand(cmds.push(c)) == expand(cmds) + expand_cmd(c),
{
    assert(cmds.push(c).drop_last() =~= cmds);
}

/// Resolving a jump target changes no token.
proof fn lemma_expand_retarget(cmds: Seq<Cmd>, o: int, c: Cmd)
    requires
        0 <= o < cmds.len(),
        !is_simple(cmds[o].operator),
        c.operator == cmds[o].operator,
    ensures
        expand(cmds.update(o, c)) == expand(cmds),
    decreases cmds.len(),
{
    let u = cmds.update(o, c);
    if o == cmds.len() - 1 {
        assert(u.drop_last() =~= cmds.drop_last());
        assert(expand_cmd(c) =~= expand_cmd(cmds[o]));
    } else {
        assert(u.drop_last() =~= cmds.drop_last().update(o, c));
        lemma_expand_retarget(cmds.drop_last(), o, c);
    }
}

/// What holds of the instructions built from the tokens `pre`.
spec fn collapse_inv(s: ParseState, pre: Seq<Op>) -> bool {
    expand(s.cmds) == pre && runs_collapsed(s.cmds)
}

proof fn lemma_collapse_close(s: ParseState, pre: Seq<Op>)
    requires
        s.err is None,
        s.open.len() > 0,
        s.cmds.len() < usize::MAX,
        pairing_inv(s),
        collapse_inv(s, pre),
    ensures
        collapse_inv(parse_token(s, Op::JmpNonZero), pre.push(Op::JmpNonZero)),
{
    let c2 = parse_token(s, Op::JmpNonZero).cmds;
    let l = s.cmds.len();
    let o = s.open.last();
    let x = Cmd { operator: Op::JmpNonZero, operand: (o + 1) as usize };
    let y = Cmd { operator: Op::JmpZero, operand: (l + 1) as usize };
    assert(s.cmds[s.open[s.open.len() - 1] as int] == Cmd { operator: Op::JmpZero, operand: 0 });
    assert(c2 =~= s.cmds.update(o as int, y).push(x));
    lemma_expand_push(s.cmds.update(o as int, y), x);
    lemma_expand_retarget(s.cmds, o as int, y);
    assert(expand_cmd(x) =~= seq![Op::JmpNonZero]);
    assert forall|i: int| 0 <= i < c2.len() && is_simple(c2[i].operator) implies #[trigger] c2[i].operand >= 1 by {
        assert(c2[i] == s.cmds[i]);
    }
    assert forall|i: int| 0 < i < c2.len() implies #[trigger] starts_run(c2, i) by {
        if i < l {
            assert(starts_run(s.cmds, i));
        }
    }
    assert(expand(c2) == pre.push(Op::JmpNonZero));
    assert(runs_collapsed(c2));
}

proof fn lemma_collapse_extend(s: ParseState, pre: Seq<Op>, t: Op)
    requires
        s.err is None,
        is_simple(t),
        s.cmds.len() > 0,
        s.cmds.last().operator == t,
        pre.len() < usize::MAX,
        collapse_inv(s, pre),
    ensures
        collapse_inv(parse_token(s, t), pre.push(t)),
{
    let c2 = parse_token(s, t).cmds;
    let last = s.cmds.last();
    let y = Cmd { operator: t, operand: (last.operand + 1) as usize };
    assert(s.cmds.drop_last().push(last) =~= s.cmds);
    lemma_expand_push(s.cmds.drop_last(), last);
    assert(last.operand <= pre.len());
    assert(c2 =~= s.cmds.drop_last().push(y));
    lemma_expand_push(s.cmds.drop_last(), y);
    assert(expand_cmd(y) =~= expand_cmd(last).push(t));
    assert(expand(c2) =~= pre.push(t));
    assert forall|i: int| 0 < i < c2.len() implies #[trigger] starts_run(c2, i) by {
        assert(starts_run(s.cmds, i));
    }
}

proof fn lemma_collapse_push(s: ParseState, pre: Seq<Op>, t: Op)
    requires
        s.err is None,
        t == Op::JmpZero || !(s.cmds.len() > 0 && s.cmds.last().operator == t),
        t != Op::JmpNonZero,
        s.cmds.len() < usize::MAX,
        collapse_inv(s, pre),
    ensures
        collapse_inv(parse_token(s, t), pre.push(t)),
{
    let y = if t == Op::JmpZero { Cmd { operator: Op::JmpZero, operand: 0 } } else { Cmd { operator: t, operand: 1 } };
    let c2 = parse_token(s, t).cmds;
    let l = s.cmds.len();
    assert(c2 == s.cmds.push(y));
    lemma_expand_push(s.cmds, y);
    assert(expand_cmd(y) =~= seq![t]);
    assert forall|i: int| 0 < i < c2.len() implies #[trigger] starts_run(c2, i) by {
        if i < l {
            assert(starts_run(s.cmds, i));
        }
    }
    assert(expand(c2) == pre.push(t));
    assert(runs_collapsed(c2));
}

proof fn lemma_collapse_holds(tokens: Seq<Op>)
    requires
        tokens.len() <= usize::MAX,
    ensures
        parse_prefix(tokens).err is None ==> collapse_inv(parse_prefix(tokens), tokens),
    decreases tokens.len(),
{
    if tokens.len() > 0 {
        let pre = tokens.drop_last();
        let s = parse_prefix(pre);
        let t = tokens.last();
        lemma_collapse_holds(pre);
        lemma_pairing_holds(pre);
        lemma_cmds_fewer_than_tokens(pre);
        assert(pre.push(t) =~= tokens);
        if s.err is None {
            if t == Op::JmpNonZero {
                if s.open.len() > 0 {
                    lemma_collapse_close(s, pre);
                }
            } else if t != Op::JmpZero && s.cmds.len() > 0 && s.cmds.last().operator == t {
                lemma_collapse_extend(s, pre, t);
            } else {
                lemma_collapse_push(s, pre, t);
            }
        }
    } else {
        assert(expand(parse_prefix(tokens).cmds) =~= tokens);
    }
}

/// Collapsing runs loses and invents no token: a parsed instruction list
/// expands back to exactly the token sequence it came from, and every run of a
/// simple operator in it has become a single instruction.
pub proof fn lemma_parse_keeps_tokens(tokens: Seq<Op>)
    requires
        tokens.len() <= usize::MAX,
    ensures
        parse_spec(tokens) is Ok ==> expand(parse_spec(tokens)->Ok_0) == tokens && runs_collapsed(parse_spec(tokens)->Ok_0),
{
    lemma_collapse_holds(tokens);
}

/// A parser over the token stream of one program source.
pub struct Parser {
    token_stream: Vec<Op>,
}

impl Parser {
    /// The tokens this parser will read.
    pub closed spec fn tokens(&self) -> Seq<Op> {
        self.token_stream@
    }

    /// A parser over the tokens of a program source.
    pub fn from_bytes(src: &Vec<u8>) -> (p: Parser)
        ensures
            p.tokens() == lex(src@),
    {
        Parser { token_stream: tokenize(src) }
    }

    /// Collapses runs of simple operators and resolves every bracket pair to
    /// absolute jump targets, or reports the bracket fault.
    pub fn parse_all(self) -> (r: Result<Vec<Cmd>, ParseError>)
        ensures
            match r {
                Ok(cmds) => parse_spec(self.tokens()) == Ok::<Seq<Cmd>, ParseError>(cmds@)
                    && expand(cmds@) == self.tokens() && runs_collapsed(cmds@) && jumps_paired(cmds@),
                Err(e) => parse_spec(self.tokens()) == Err::<Seq<Cmd>, ParseError>(e),
            },
    {
        let tokens = self.token_stream;
        let n = tokens.len();
        let mut cmds: Vec<Cmd> = Vec::new();
        let mut open: Vec<usize> = Vec::new();
        let mut i: usize = 0;
        while i < n
            invariant
                n == tokens.len(),
                tokens@ == self.tokens(),
                i <= n,
                parse_prefix(tokens@.take(i as int)) == (ParseState { cmds: cmds@, open: open@, err: None }),
                cmds.len() <= i,
                forall|k: int| 0 <= k < cmds.len() ==> cmds[k].operand <= i,
                forall|k: int| 0 <= k < open.len() ==> open[k] < cmds.len(),
            decreases n - i,
        {
            let t = tokens[i];
            assert(tokens@.take(i as int + 1).drop_last() =~= tokens@.take(i as int));
            match t {
                Op::JmpZero => {
                    open.push(cmds.len());
                    cmds.push(Cmd { operator: Op::JmpZero, operand: 0 });
                },
                Op::JmpNonZero => {
                    match open.pop() {
                        None => {
                            proof {
                                lemma_fault_sticks(tokens@, i + 1);
                            }
                            return Err(ParseError::UnopenedBracket(cmds.len()));
                        },
                        Some(o) => {
                            let l = cmds.len();
                            cmds.push(Cmd { operator: Op::JmpNonZero, operand: o + 1 });
                            cmds.set(o, Cmd { operator: Op::JmpZero, operand: l + 1 });
                        },
                    }
                },
                _ => {
                    let l = cmds.len();
                    if l > 0 && cmds[l - 1].operator == t {
                        let c = cmds[l - 1].operand;
                        cmds.set(l - 1, Cmd { operator: t, operand: c + 1 });
                    } else {
                        cmds.push(Cmd { operator: t, operand: 1 });
                    }
                },
            }
            i += 1;
        }
        assert(tokens@.take(n as int) =~= tokens@);
        proof {
            lemma_parsed_jumps_paired(tokens@);
            lemma_parse_keeps_tokens(tokens@);
        }
        if open.len() > 0 {
            Err(ParseError::UnclosedBracket(open[0]))
        } else {
            Ok(cmds)
        }
    }
}

} // verus!
