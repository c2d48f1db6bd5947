//! The discrete part of L-System interpretation: which symbols are accepted,
//! and the turtle program that a symbol string stands for (segments with their
//! kind, branch depth and age within the branch; turns; branch pushes and pops).
use vstd::prelude::*;

verus! {

/// Represents different types of L-System components.
#[derive(Clone, Copy, Debug, PartialEq, Eq, Structural)]
pub enum SymbolType {
    /// S - basic building blocks like stems and branches
    Segment,
    /// B - points where branching occurs
    Bifurcation,
    /// C - origin/central elements like the trunk base
    Core,
    /// F - original single symbol used for all parts
    Legacy,
}

/// One step of the turtle program obtained from a symbol string.
#[derive(Clone, Copy, Debug, PartialEq, Eq, Structural)]
pub enum TurtleCommand {
    /// Draw one segment. `bracket_depth` is the number of open branches and
    /// `segment_index` the number of segments drawn before it in the current branch.
    Draw { symbol_type: SymbolType, bracket_depth: usize, segment_index: usize },
    /// Rotate; `clockwise` is true for `+` and false for `-`.
    Turn { clockwise: bool, bracket_depth: usize },
    /// Save the turtle state and open a branch (`[`).
    PushBranch,
    /// Restore the most recently saved turtle state (`]` with an open branch).
    PopBranch,
}

/// Why a symbol string cannot be interpreted.
#[derive(Clone, Copy, Debug, PartialEq, Eq, Structural)]
pub enum InterpretError {
    /// The string holds a character outside `F S B C + - [ ]`.
    InvalidSymbol,
}

impl InterpretError {
    /// The error's message.
    pub fn message(&self) -> (text: String)
        ensures
            text@ == "Invalid symbol in L-System string"@,
    {
        match self {
            InterpretError::InvalidSymbol => "Invalid symbol in L-System string".to_owned(),
        }
    }
}

/// The symbols an L-System string may hold.
pub open spec fn spec_is_valid_symbol(c: char) -> bool {
    c == 'F' || c == 'S' || c == 'B' || c == 'C' || c == '+' || c == '-' || c == '[' || c == ']'
}

/// The kind of segment a drawing symbol stands for; `None` for other characters.
pub open spec fn spec_symbol_type(c: char) -> Option<SymbolType> {
    if c == 'F' {
        Some(SymbolType::Legacy)
    } else if c == 'S' {
        Some(SymbolType::Segment)
    } else if c == 'B' {
        Some(SymbolType::Bifurcation)
    } else if c == 'C' {
        Some(SymbolType::Core)
    } else {
        None
    }
}

/// Whether `c` is one of the accepted symbols.
#[verifier::when_used_as_spec(spec_is_valid_symbol)]
pub fn is_valid_symbol(c: char) -> (valid: bool)
    ensures
        valid == spec_is_valid_symbol(c),
{
    c == 'F' || c == 'S' || c == 'B' || c == 'C' || c == '+' || c == '-' || c == '[' || c == ']'
}

/// The kind of segment a drawing symbol stands for.
pub fn symbol_type(c: char) -> (kind: Option<SymbolType>)
    ensures
        kind == spec_symbol_type(c),
{
    if c == 'F' {
        Some(SymbolType::Legacy)
    } else if c == 'S' {
        Some(SymbolType::Segment)
    } else if c == 'B' {
        Some(SymbolType::Bifurcation)
    } else if c == 'C' {
        Some(SymbolType::Core)
    } else {
        None
    }
}

/// The turtle's discrete state after reading a word: the number of segments
/// drawn in the current branch, and the stack of those numbers saved by the
/// open branches (its length is the bracket depth).
pub open spec fn turtle_state(s: Seq<char>) -> (nat, Seq<nat>)
    decreases s.len(),
{
    if s.len() == 0 {
        (0, Seq::empty())
    } else {
        next_state(turtle_state(s.drop_last()), s.last())
    }
}

/// How one symbol changes the turtle's discrete state.
pub open spec fn next_state(st: (nat, Seq<nat>), c: char) -> (nat, Seq<nat>) {
    if spec_symbol_type(c) is Some {
        (st.0 + 1, st.1)
    } else if c == '[' {
        (0, st.1.push(st.0))
    } else if c == ']' && st.1.len() > 0 {
        (st.1.last(), st.1.drop_last())
    } else {
        st
    }
}

/// The commands one symbol yields in a given state (a `]` with no open branch yields none).
pub open spec fn symbol_commands(st: (nat, Seq<nat>), c: char) -> Seq<TurtleCommand> {
    if spec_symbol_type(c) is Some {
        seq![
            TurtleCommand::Draw {
                symbol_type: spec_symbol_type(c)->0,
                bracket_depth: st.1.len() as usize,
                segment_index: st.0 as usize,
            },
        ]
    } else if c == '+' || c == '-' {
        seq![TurtleCommand::Turn { clockwise: c == '+', bracket_depth: st.1.len() as usize }]
    } else if c == '[' {
        seq![TurtleCommand::PushBranch]
    } else if c == ']' && st.1.len() > 0 {
        seq![TurtleCommand::PopBranch]
    } else {
        Seq::empty()
    }
}

/// The turtle program a symbol string stands for.
pub open spec fn turtle_program(s: Seq<char>) -> Seq<TurtleCommand>
    decreases s.len(),
{
    if s.len() == 0 {
        Seq::empty()
    } else {
        turtle_program(s.drop_last()) + symbol_commands(turtle_state(s.drop_last()), s.last())
    }
}

/// Whether every character of `s` is an accepted symbol.
pub open spec fn all_valid(s: Seq<char>) -> bool {
    forall|i: int| 0 <= i < s.len() ==> spec_is_valid_symbol(#[trigger] s[i])
}

/// Whether every character of `symbols` is one of `F S B C + - [ ]`.
pub fn validate_symbols(symbols: &str) -> (valid: bool)
    ensures
        valid == all_valid(symbols@),
{
    let ghost s = symbols@;
    for ch in it: symbols.chars()
        invariant
            s == symbols@,
            it.seq() == s,
            forall|j: int| 0 <= j < it.index() ==> spec_is_valid_symbol(#[trigger] s[j]),
    {
        if !is_valid_symbol(ch) {
            assert(s.take(it.index() + 1).last() == ch);
            assert(!spec_is_valid_symbol(s[it.index() as int]));
            return false;
        }
    }
    true
}

/// Validates the symbols and computes the turtle program they stand for.
pub fn plan_turtle_program(symbols: &str) -> (result: Result<Vec<TurtleCommand>, InterpretError>)
    ensures
        match result {
            Ok(program) => all_valid(symbols@) && program@ == turtle_program(symbols@),
            Err(e) => !all_valid(symbols@) && e == InterpretError::InvalidSymbol,
        },
{
    if !validate_symbols(symbols) {
        return Err(InterpretError::InvalidSymbol);
    }
    let ghost s = symbols@;
    let mut program: Vec<TurtleCommand> = Vec::new();
    let mut age: usize = 0;
    let mut saved: Vec<usize> = Vec::new();
    for ch in it: symbols.chars()
        invariant
            it.seq() == s,
            program@ == turtle_program(s.take(it.index() as int)),
            turtle_state(s.take(it.index() as int)).0 == age as nat,
            turtle_state(s.take(it.index() as int)).1 == saved@.map_values(|a: usize| a as nat),
            age <= program.len(),
            forall|j: int| 0 <= j < saved.len() ==> saved[j] <= program.len(),
    {
        let ghost prefix = s.take(it.index() as int);
        let ghost next = s.take(it.index() + 1);
        assert(next.drop_last() == prefix);
        assert(next.last() == ch);
        let ghost st = turtle_state(prefix);
        let depth: usize = saved.len();
        match symbol_type(ch) {
            Some(kind) => {
                program.push(
                    TurtleCommand::Draw { symbol_type: kind, bracket_depth: depth, segment_index: age },
                );
                let drawn: usize = program.len();
                assert(age < drawn);
                age = age + 1;
            },
            None => {
                if ch == '+' || ch == '-' {
                    program.push(TurtleCommand::Turn { clockwise: ch == '+', bracket_depth: depth });
                } else if ch == '[' {
                    program.push(TurtleCommand::PushBranch);
                    saved.push(age);
                    age = 0;
                    assert(saved@.map_values(|a: usize| a as nat) == st.1.push(st.0));
                } else if ch == ']' && depth > 0 {
                    program.push(TurtleCommand::PopBranch);
                    let restored = saved.pop().unwrap();
                    age = restored;
                    assert(saved@.map_values(|a: usize| a as nat) == st.1.drop_last());
                }
            },
        }
    }
    assert(s.take(s.len() as int) == s);
    Ok(program)
}

/// The number of drawing symbols (`F S B C`) in a word.
pub open spec fn drawing_symbol_count(s: Seq<char>) -> nat
    decreases s.len(),
{
    if s.len() == 0 {
        0
    } else {
        drawing_symbol_count(s.drop_last()) + if spec_symbol_type(s.last()) is Some {
            1nat
        } else {
            0nat
        }
    }
}

/// The number of `Draw` commands in a program.
pub open spec fn draw_count(p: Seq<TurtleCommand>) -> nat
    decreases p.len(),
{
    if p.len() == 0 {
        0
    } else {
        draw_count(p.drop_last()) + if p.last() is Draw {
            1nat
        } else {
            0nat
        }
    }
}

/// Branches opened and not yet closed by a program: pushes minus pops.
pub open spec fn open_branches(p: Seq<TurtleCommand>) -> int
    decreases p.len(),
{
    if p.len() == 0 {
        0
    } else {
        open_branches(p.drop_last()) + if p.last() is PushBranch {
            1int
        } else if p.last() is PopBranch {
            -1int
        } else {
            0int
        }
    }
}

/// The bracket depth a command carries, if it carries one.
pub open spec fn command_depth(c: TurtleCommand) -> Option<usize> {
    match c {
        TurtleCommand::Draw { bracket_depth, .. } => Some(bracket_depth),
        TurtleCommand::Turn { bracket_depth, .. } => Some(bracket_depth),
        _ => None,
    }
}

proof fn lemma_counts_concat(a: Seq<TurtleCommand>, b: Seq<TurtleCommand>)
    ensures
        draw_count(a + b) == draw_count(a) + draw_count(b),
        open_branches(a + b) == open_branches(a) + open_branches(b),
    decreases b.len(),
{
    if b.len() == 0 {
        assert(a + b == a);
    } else {
        assert((a + b).drop_last() == a + b.drop_last());
        assert((a + b).last() == b.last());
        lemma_counts_concat(a, b.drop_last());
    }
}

proof fn lemma_program_tracks_state(s: Seq<char>)
    ensures
        open_branches(turtle_program(s)) == turtle_state(s).1.len(),
        draw_count(turtle_program(s)) == drawing_symbol_count(s),
    decreases s.len(),
{
    if s.len() > 0 {
        lemma_program_tracks_state(s.drop_last());
        let st = turtle_state(s.drop_last());
        let cmds = symbol_commands(st, s.last());
        lemma_counts_concat(turtle_program(s.drop_last()), cmds);
        let c = s.last();
        if cmds.len() == 1 {
            assert(cmds.drop_last() =~= Seq::<TurtleCommand>::empty());
            assert(draw_count(cmds.drop_last()) == 0);
            assert(open_branches(cmds.drop_last()) == 0);
            assert(cmds.last() == cmds[0]);
            assert(draw_count(cmds) == if cmds[0] is Draw { 1nat } else { 0nat });
            assert(open_branches(cmds) == if cmds[0] is PushBranch {
                1int
            } else if cmds[0] is PopBranch {
                -1int
            } else {
                0int
            });
        } else {
            assert(cmds =~= Seq::<TurtleCommand>::empty());
        }
    }
}

/// Interpreting a word draws exactly one segment per drawing symbol.
pub proof fn lemma_one_segment_per_drawing_symbol(s: Seq<char>)
    ensures
        draw_count(turtle_program(s)) == drawing_symbol_count(s),
{
    lemma_program_tracks_state(s);
}

/// The turtle program is well bracketed: no prefix pops more branches than it
/// pushed, and every segment and turn carries as its bracket depth the number of
/// branches open before it.
pub proof fn lemma_program_well_bracketed(s: Seq<char>, k: int)
    requires
        s.len() <= usize::MAX,
        0 <= k <= turtle_program(s).len(),
    ensures
        open_branches(turtle_program(s).take(k)) >= 0,
        k < turtle_program(s).len() ==> (command_depth(turtle_program(s)[k]) matches Some(d)
            ==> d as int == open_branches(turtle_program(s).take(k))),
    decreases s.len(),
{
    if s.len() > 0 {
        let s0 = s.drop_last();
        let p0 = turtle_program(s0);
        let st = turtle_state(s0);
        let cmds = symbol_commands(st, s.last());
        let p = turtle_program(s);
        assert(p == p0 + cmds);
        lemma_program_tracks_state(s0);
        lemma_state_depth_bounded(s0);
        if k <= p0.len() {
            assert(p.take(k) == p0.take(k));
            lemma_program_well_bracketed(s0, k);
            if k < p0.len() {
                assert(p[k] == p0[k]);
            } else if k < p.len() {
                assert(p0.take(k) == p0);
                assert(p[k] == cmds[0]);
            }
        } else {
            assert(p.take(k) == p);
            lemma_program_tracks_state(s);
        }
    } else {
        assert(turtle_program(s).take(k) =~= Seq::<TurtleCommand>::empty());
    }
}

proof fn lemma_state_depth_bounded(s: Seq<char>)
    ensures
        turtle_state(s).1.len() <= s.len(),
    decreases s.len(),
{
    if s.len() > 0 {
        lemma_state_depth_bounded(s.drop_last());
    }
}

/// A turn changes neither the number of segments drawn in the current branch
/// nor the open branches, and yields exactly one `Turn` at the current depth.
pub proof fn lemma_turn_keeps_state(s: Seq<char>, c: char)
    requires
        c == '+' || c == '-',
    ensures
        turtle_state(s.push(c)) == turtle_state(s),
        turtle_program(s.push(c)) == turtle_program(s).push(
            TurtleCommand::Turn { clockwise: c == '+', bracket_depth: turtle_state(s).1.len() as usize },
        ),
{
    let w = s.push(c);
    assert(w.drop_last() == s);
    assert(w.last() == c);
}

/// Inserting a turn anywhere in a word leaves the turtle's state at the end
/// unchanged: no later segment count or branch depth depends on turns.
pub proof fn lemma_turn_insertion_keeps_state(s: Seq<char>, c: char, t: Seq<char>)
    requires
        c == '+' || c == '-',
    ensures
        turtle_state(s.push(c) + t) == turtle_state(s + t),
    decreases t.len(),
{
    if t.len() == 0 {
        assert(s.push(c) + t == s.push(c));
        assert(s + t == s);
        lemma_turn_keeps_state(s, c);
    } else {
        lemma_turn_insertion_keeps_state(s, c, t.drop_last());
        assert((s.push(c) + t).drop_last() == s.push(c) + t.drop_last());
        assert((s + t).drop_last() == s + t.drop_last());
        assert((s.push(c) + t).last() == t.last());
        assert((s + t).last() == t.last());
    }
}

/// Opening a branch starts a new segment count and saves the current one;
/// closing it restores the saved count. So a branch's segments leave the
/// count of the enclosing branch as it was.
pub proof fn lemma_branch_restores_state(s: Seq<char>, b: Seq<char>)
    requires
        turtle_state(s + seq!['['] + b).1.len() == turtle_state(s).1.len() + 1,
        turtle_state(s + seq!['['] + b).1.take(turtle_state(s).1.len() as int) == turtle_state(s).1,
        turtle_state(s + seq!['['] + b).1.last() == turtle_state(s).0,
    ensures
        turtle_state(s + seq!['['] + b + seq![']']) == turtle_state(s),
{
    let w = s + seq!['['] + b + seq![']'];
    assert(w.drop_last() == s + seq!['['] + b);
    assert(w.last() == ']');
    let st = turtle_state(s + seq!['['] + b);
    assert(st.1.drop_last() == st.1.take(turtle_state(s).1.len() as int));
}

/// A word without brackets keeps one branch, whose segment count is the
/// number of drawing symbols read so far.
pub proof fn lemma_unbracketed_count(s: Seq<char>)
    requires
        forall|i: int| 0 <= i < s.len() ==> s[i] != '[' && s[i] != ']',
    ensures
        turtle_state(s).0 == drawing_symbol_count(s),
        turtle_state(s).1.len() == 0,
    decreases s.len(),
{
    if s.len() > 0 {
        lemma_unbracketed_count(s.drop_last());
        assert(s.last() == s[s.len() - 1]);
    }
}

} // verus!
