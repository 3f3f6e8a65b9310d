//! The abstract machine: a ghost model of the whole interpreter state and a
//! one-step relation that says exactly what each dispatched character does.
//! Deterministic commands are pinned to one successor; the commands that draw
//! randomness are stated as a relation over every outcome. The dispatch loop
//! is proved to follow this relation step by step.

use vstd::prelude::*;

use crate::Error;
use crate::fntable::FnTableModel;
use crate::interp::MAX_DEPTH;
use crate::interp::is_basic_char;
use crate::interp::is_reserved_char;
use crate::interp::nice_line;
use crate::pairing::in_range;
use crate::pairing::offset_pairs;
use crate::pairing::scan;
use crate::round5;
use crate::tape::TapeModel;
use crate::tape::near_wrapped;
use crate::tape::expanded;
use crate::tape::step_left;
use crate::tape::step_right;
use crate::text::utf8_decode;
use crate::text::utf8_encode;

verus! {

/// One invocation frame of the abstract machine.
pub ghost struct FrameModel {
    pub code: Seq<char>,
    pub table: Map<int, int>,
    pub idx: int,
    pub bfmode: bool,
    pub nicemode: bool,
}

/// The whole machine: the frame stack (last element is the active frame),
/// the tape, the output buffer, the function table, the original source text
/// (what the echo command emits), and the input feed.
pub ghost struct MachineModel {
    pub frames: Seq<FrameModel>,
    pub tape: TapeModel,
    pub printed: Seq<u8>,
    pub funcs: Map<char, (Seq<char>, int)>,
    pub creating: Set<char>,
    pub src_text: Seq<char>,
    pub input: Seq<u8>,
    pub pos: int,
}

/// What one step can end in: a successor state, or an abort with an error.
pub ghost enum StepOut {
    Next(MachineModel),
    Fail(Error),
}

/// The next position: one past `i`, capped at the buffer length.
pub open spec fn advp(i: int, n: int) -> int {
    if i < n {
        i + 1
    } else {
        n
    }
}

/// The state the machine starts a run in.
pub open spec fn start_state(
    code: Seq<char>,
    table: Map<int, int>,
    tape: TapeModel,
    printed: Seq<u8>,
    fnt: FnTableModel,
    src_text: Seq<char>,
    input: Seq<u8>,
    pos: int,
) -> MachineModel {
    MachineModel {
        frames: seq![
            FrameModel { code, table, idx: 0, bfmode: false, nicemode: false },
        ],
        tape,
        printed,
        funcs: fnt.funcs,
        creating: fnt.creating,
        src_text,
        input,
        pos,
    }
}

/// The state a whole program starts in: a fresh tape, no output, no
/// functions, the scan's pairing table, and the unread input.
pub open spec fn exec_start(code: Seq<char>, input: Seq<u8>) -> MachineModel {
    start_state(
        code,
        scan(code).pairs,
        TapeModel { left: Seq::empty(), right: Seq::empty(), cell: 0u8 },
        Seq::empty(),
        FnTableModel { funcs: Map::empty(), creating: Set::empty() },
        code,
        input,
        0,
    )
}

/// Successor in which only the active frame changed, its index moved to
/// `i` and then advanced by one (capped).
pub open spec fn step_idx(s: MachineModel, i: int) -> MachineModel {
    let fr = s.frames.last();
    let n = fr.code.len() as int;
    MachineModel {
        frames: s.frames.drop_last().push(FrameModel { idx: advp(i, n), ..fr }),
        ..s
    }
}

/// Successor in which the tape became `t2` and the index advanced by one.
pub open spec fn step_tape(s: MachineModel, t2: TapeModel) -> MachineModel {
    MachineModel { tape: t2, ..step_idx(s, s.frames.last().idx) }
}

/// The active cell overwritten with `v`.
pub open spec fn set_cell(t: TapeModel, v: u8) -> TapeModel {
    TapeModel { cell: v, ..t }
}

/// The lookahead cell: the nearest right-history cell, or zero.
pub open spec fn lookahead(t: TapeModel) -> u8 {
    if t.right.len() > 0 {
        t.right.last()
    } else {
        0u8
    }
}

/// Wrapping byte arithmetic on the mathematical integers.
pub open spec fn byte_wrap(n: int) -> u8 {
    (((n % 256) + 256) % 256) as u8
}

/// The byte a quoted character writes: its code point reduced modulo 256.
pub open spec fn char_byte(c: char) -> u8 {
    ((c as u32) % 256) as u8
}

/// The tape after the quoted characters `code[k .. end]` have been written
/// one by one, each after one head move to the right.
pub open spec fn write_quoted(t: TapeModel, code: Seq<char>, k: int, end: int) -> TapeModel
    decreases end - k,
{
    if k >= end {
        t
    } else {
        write_quoted(set_cell(step_right(t), char_byte(code[k])), code, k + 1, end)
    }
}

/// The tape after `k` repetitions of "write 8, move right".
pub open spec fn paint_eights(t: TapeModel, k: nat) -> TapeModel
    decreases k,
{
    if k == 0 {
        t
    } else {
        paint_eights(step_right(set_cell(t, 8u8)), (k - 1) as nat)
    }
}

/// The position of the nearest paired loop closer at or after `i`, or the
/// buffer length if there is none.
pub open spec fn break_target(code: Seq<char>, table: Map<int, int>, i: int, n: int) -> int
    decreases n - i,
{
    if i >= n {
        n
    } else if code[i] == ']' && in_range(table, i) {
        i
    } else {
        break_target(code, table, i + 1, n)
    }
}

/// The function table after one captured character: `c` is appended to the
/// body of every identifier whose definition is open.
pub open spec fn put_funcs(
    funcs: Map<char, (Seq<char>, int)>,
    creating: Set<char>,
    c: char,
) -> Map<char, (Seq<char>, int)> {
    Map::new(
        |k: char| funcs.dom().contains(k),
        |k: char|
            if creating.contains(k) {
                (funcs[k].0.push(c), funcs[k].1)
            } else {
                funcs[k]
            },
    )
}

/// Every outcome `randomize` allows: lengths kept, every visited cell and the
/// active cell within a wrapping offset of five of its old value.
pub open spec fn randomized(t1: TapeModel, t2: TapeModel) -> bool {
    &&& t2.left.len() == t1.left.len()
    &&& t2.right.len() == t1.right.len()
    &&& forall|i: int| 0 <= i < t1.left.len() ==> near_wrapped(t1.left[i], #[trigger] t2.left[i])
    &&& forall|i: int|
        0 <= i < t1.right.len() ==> near_wrapped(t1.right[i], #[trigger] t2.right[i])
    &&& near_wrapped(t1.cell, t2.cell)
}

/// The dispatch of one command character `c` of the active frame, in normal
/// mode (or a basic-mode character that still executes). `out` is a possible
/// outcome of that step.
pub open spec fn command_step(s: MachineModel, c: char, out: StepOut) -> bool {
    let fr = s.frames.last();
    let rest = s.frames.drop_last();
    let n = fr.code.len() as int;
    let t = s.tape;
    if c == '>' {
        out == StepOut::Next(step_tape(s, step_right(t)))
    } else if c == '<' {
        out == StepOut::Next(step_tape(s, step_left(t)))
    } else if c == '{' {
        out == StepOut::Next(
            step_tape(
                s,
                TapeModel {
                    left: if t.left.len() > 0 {
                        t.left.drop_last()
                    } else {
                        t.left
                    },
                    ..t
                },
            ),
        )
    } else if c == '}' {
        out == StepOut::Next(
            step_tape(
                s,
                TapeModel {
                    right: if t.right.len() > 0 {
                        t.right.drop_last()
                    } else {
                        t.right
                    },
                    ..t
                },
            ),
        )
    } else if c == '(' {
        out == StepOut::Next(step_tape(s, TapeModel { left: t.left.push(0u8), ..t }))
    } else if c == ')' {
        out == StepOut::Next(step_tape(s, TapeModel { right: t.right.push(0u8), ..t }))
    } else if c == '+' {
        out == StepOut::Next(step_tape(s, set_cell(t, byte_wrap(t.cell + 1))))
    } else if c == '-' {
        out == StepOut::Next(step_tape(s, set_cell(t, byte_wrap(t.cell - 1))))
    } else if c == '*' {
        out == StepOut::Next(step_tape(s, set_cell(t, byte_wrap(t.cell * lookahead(t)))))
    } else if c == '/' {
        out == StepOut::Next(
            step_tape(
                s,
                set_cell(
                    t,
                    if lookahead(t) == 0 {
                        255u8
                    } else {
                        (t.cell / lookahead(t)) as u8
                    },
                ),
            ),
        )
    } else if c == '!' {
        out == StepOut::Next(
            step_tape(
                s,
                if t.cell == 0 {
                    set_cell(t, 1u8)
                } else if t.cell == 1 {
                    set_cell(t, 0u8)
                } else {
                    t
                },
            ),
        )
    } else if c == '.' {
        out == StepOut::Next(
            MachineModel { printed: s.printed.push(t.cell), ..step_idx(s, fr.idx) },
        )
    } else if c == ',' {
        out == StepOut::Next(
            MachineModel {
                tape: set_cell(
                    t,
                    if s.pos < s.input.len() {
                        s.input[s.pos]
                    } else {
                        0u8
                    },
                ),
                pos: if s.pos < s.input.len() {
                    s.pos + 1
                } else {
                    s.pos
                },
                ..step_idx(s, fr.idx)
            },
        )
    } else if c == '[' {
        if t.cell != 0 {
            out == StepOut::Next(step_idx(s, fr.idx))
        } else if fr.table.dom().contains(fr.idx) {
            out == StepOut::Next(step_idx(s, fr.table[fr.idx]))
        } else {
            out == StepOut::Fail(Error::UnresolvedPair(fr.idx as usize))
        }
    } else if c == ']' {
        if t.cell == 0 {
            out == StepOut::Next(step_idx(s, fr.idx))
        } else if in_range(fr.table, fr.idx) {
            out == StepOut::Next(
                step_idx(
                    s,
                    choose|l: int| fr.table.dom().contains(l) && #[trigger] fr.table[l] == fr.idx,
                ),
            )
        } else {
            out == StepOut::Fail(Error::UnresolvedPair(fr.idx as usize))
        }
    } else if c == '\\' {
        let target = break_target(fr.code, fr.table, fr.idx, n);
        out == StepOut::Next(
            step_idx(
                s,
                if target < n {
                    target
                } else {
                    fr.idx
                },
            ),
        )
    } else if c == '#' {
        out == StepOut::Next(
            step_idx(
                s,
                if t.cell != lookahead(t) {
                    advp(fr.idx, n)
                } else {
                    fr.idx
                },
            ),
        )
    } else if c == '?' {
        // a uniformly random byte lands in the active cell
        out matches StepOut::Next(s2) && exists|b: u8| s2 == step_tape(s, set_cell(t, b))
    } else if c == '$' {
        // the head moves one step in a random direction
        out == StepOut::Next(step_tape(s, step_right(t))) || out == StepOut::Next(
            step_tape(s, step_left(t)),
        )
    } else if c == '&' {
        // the next instruction is skipped with even chance
        out == StepOut::Next(step_idx(s, fr.idx)) || out == StepOut::Next(
            step_idx(s, advp(fr.idx, n)),
        )
    } else if c == '@' {
        out == StepOut::Next(MachineModel { frames: rest, ..s })
    } else if c == '"' {
        if !fr.table.dom().contains(fr.idx) {
            out == StepOut::Fail(Error::UnresolvedPair(fr.idx as usize))
        } else if fr.table[fr.idx] > n {
            out == StepOut::Fail(Error::UnresolvedPair(fr.idx as usize))
        } else {
            out == StepOut::Next(
                MachineModel {
                    tape: write_quoted(t, fr.code, fr.idx + 1, fr.table[fr.idx]),
                    ..step_idx(s, fr.table[fr.idx])
                },
            )
        }
    } else if c == '`' {
        out == StepOut::Next(step_tape(s, set_cell(t, t.cell << 1)))
    } else if c == '~' {
        out == StepOut::Next(step_tape(s, set_cell(t, t.cell >> 1)))
    } else if c == '|' {
        out == StepOut::Next(
            MachineModel { frames: rest.push(FrameModel { idx: 0, ..fr }), ..s },
        )
    } else if c == ';' {
        out == StepOut::Next(
            MachineModel { printed: s.printed + utf8_encode(s.src_text), ..step_idx(s, fr.idx) },
        )
    } else if c == '^' {
        if fr.table.dom().contains(fr.idx) {
            out == StepOut::Next(step_idx(s, fr.table[fr.idx]))
        } else {
            out == StepOut::Fail(Error::UnresolvedPair(fr.idx as usize))
        }
    } else if c == ':' {
        out == StepOut::Next(
            step_tape(
                s,
                TapeModel {
                    right: if t.right.len() > 0 {
                        t.right.update(t.right.len() - 1, t.cell)
                    } else {
                        seq![t.cell]
                    },
                    ..t
                },
            ),
        )
    } else if c == '\'' {
        match utf8_decode(s.printed) {
            None => out == StepOut::Fail(Error::InvalidOutputBytes),
            Some(cs) => match scan(cs).fail {
                Some(p) => out == StepOut::Fail(Error::MismatchedBrackets(p as usize)),
                None => {
                    if s.frames.len() >= MAX_DEPTH as int {
                        out == StepOut::Fail(Error::RecursionLimitExceeded)
                    } else {
                        out == StepOut::Next(
                            MachineModel {
                                frames: rest.push(FrameModel { idx: advp(fr.idx, n), ..fr }).push(
                                    FrameModel {
                                        code: cs,
                                        table: scan(cs).pairs,
                                        idx: 0,
                                        bfmode: false,
                                        nicemode: false,
                                    },
                                ),
                                ..s
                            },
                        )
                    }
                },
            },
        }
    } else if c == '_' {
        out == StepOut::Next(
            MachineModel {
                frames: rest.push(
                    FrameModel { bfmode: !fr.bfmode, idx: advp(fr.idx, n), ..fr },
                ),
                ..s
            },
        )
    } else if c == '%' {
        if fr.table.dom().contains(fr.idx) {
            out == StepOut::Next(
                step_idx(
                    s,
                    if t.cell == 0 {
                        fr.table[fr.idx]
                    } else {
                        fr.idx
                    },
                ),
            )
        } else if in_range(fr.table, fr.idx) {
            out == StepOut::Next(
                step_idx(
                    s,
                    if t.cell != 0 {
                        choose|l: int|
                            fr.table.dom().contains(l) && #[trigger] fr.table[l] == fr.idx
                    } else {
                        fr.idx
                    },
                ),
            )
        } else {
            out == StepOut::Next(step_idx(s, fr.idx))
        }
    } else if c == '0' {
        if fr.table.dom().contains(fr.idx) {
            out == StepOut::Next(step_idx(s, fr.table[fr.idx]))
        } else if in_range(fr.table, fr.idx) {
            out == StepOut::Next(
                step_idx(
                    s,
                    choose|l: int| fr.table.dom().contains(l) && #[trigger] fr.table[l] == fr.idx,
                ),
            )
        } else {
            out == StepOut::Next(step_idx(s, fr.idx))
        }
    } else if c == '1' || c == '7' {
        out == StepOut::Fail(Error::Unimplemented(c))
    } else if c == '2' {
        out == StepOut::Next(
            step_tape(
                s,
                TapeModel {
                    left: expanded(t.left, 2),
                    right: expanded(t.right, 2).push(t.cell),
                    cell: t.cell,
                },
            ),
        )
    } else if c == '3' {
        out == StepOut::Next(
            step_tape(
                s,
                TapeModel {
                    left: expanded(t.left, 3),
                    right: expanded(t.right, 3).push(t.cell).push(t.cell),
                    cell: t.cell,
                },
            ),
        )
    } else if c == '4' {
        out matches StepOut::Next(s2) && randomized(t, s2.tape) && s2 == step_tape(s, s2.tape)
    } else if c == '5' {
        out == StepOut::Next(step_tape(s, set_cell(t, round5(t.cell as int) as u8)))
    } else if c == '6' {
        out == StepOut::Next(
            MachineModel {
                frames: rest.push(
                    FrameModel { nicemode: true, idx: advp(fr.idx, n), ..fr },
                ),
                ..s
            },
        )
    } else if c == '8' {
        out == StepOut::Next(
            step_tape(s, paint_eights(step_left(step_left(step_left(t))), 7)),
        )
    } else if c == '9' || c == ' ' || c == '\n' || c == '\t' {
        out == StepOut::Next(step_idx(s, fr.idx))
    } else if c == '=' {
        out == StepOut::Fail(Error::Unimplemented('='))
    } else {
        // a candidate function identifier
        if !s.creating.contains(c) && s.funcs.dom().contains(c) {
            if s.frames.len() >= MAX_DEPTH as int {
                out == StepOut::Fail(Error::RecursionLimitExceeded)
            } else {
                out == StepOut::Next(
                    MachineModel {
                        frames: rest.push(FrameModel { idx: advp(fr.idx, n), ..fr }).push(
                            FrameModel {
                                code: s.funcs[c].0,
                                table: offset_pairs(fr.table, s.funcs[c].1),
                                idx: 0,
                                bfmode: false,
                                nicemode: false,
                            },
                        ),
                        ..s
                    },
                )
            }
        } else if s.creating.contains(c) {
            out == StepOut::Next(
                MachineModel { creating: s.creating.remove(c), ..step_idx(s, fr.idx) },
            )
        } else {
            out == StepOut::Next(
                MachineModel {
                    funcs: s.funcs.insert(c, (Seq::empty(), fr.idx + 1)),
                    creating: s.creating.insert(c),
                    ..step_idx(s, fr.idx)
                },
            )
        }
    }
}

/// One step of the machine: finish the active frame if it is exhausted, else
/// classify its current character by mode and by the capture rules, then
/// dispatch. `out` is a possible outcome.
pub open spec fn machine_step(s: MachineModel, out: StepOut) -> bool {
    let fr = s.frames.last();
    let rest = s.frames.drop_last();
    let n = fr.code.len() as int;
    if s.frames.len() == 0 {
        false
    } else if fr.idx >= n {
        out == StepOut::Next(MachineModel { frames: rest, ..s })
    } else {
        let c = fr.code[fr.idx];
        if fr.nicemode {
            if c == '9' {
                out == StepOut::Next(
                    MachineModel {
                        frames: rest.push(
                            FrameModel { nicemode: false, idx: advp(fr.idx, n), ..fr },
                        ),
                        ..s
                    },
                )
            } else {
                out == StepOut::Next(
                    MachineModel { printed: s.printed + nice_line(), ..step_idx(s, fr.idx) },
                )
            }
        } else if fr.bfmode && !is_basic_char(c) {
            out == StepOut::Next(step_idx(s, fr.idx))
        } else if !fr.bfmode && !is_reserved_char(c) && fr.idx + 2 < n && fr.code[fr.idx + 1]
            == '=' {
            let from = fr.code[fr.idx + 2];
            out == StepOut::Next(
                MachineModel {
                    funcs: if s.funcs.dom().contains(from) {
                        s.funcs.insert(c, s.funcs[from])
                    } else {
                        s.funcs
                    },
                    frames: rest.push(FrameModel { idx: fr.idx + 3, ..fr }),
                    ..s
                },
            )
        } else if !fr.bfmode && is_reserved_char(c) && (exists|x: char| s.creating.contains(x)) {
            out == StepOut::Next(
                MachineModel {
                    funcs: put_funcs(s.funcs, s.creating, c),
                    ..step_idx(s, fr.idx)
                },
            )
        } else {
            command_step(s, c, out)
        }
    }
}

/// Law: a state whose frame stack is empty takes no step at all: terminal
/// states are absorbing, so a run's outcome is the first such state its
/// trace reaches.
pub proof fn lemma_terminal_absorbing(s: MachineModel, out: StepOut)
    requires
        s.frames.len() == 0,
    ensures
        !machine_step(s, out),
{
}

/// The active character is one of the four commands that draw randomness
/// and it will actually be dispatched (not skipped, captured or printed
/// over by a mode).
pub open spec fn draws_randomness(s: MachineModel) -> bool {
    s.frames.len() > 0 && s.frames.last().idx < s.frames.last().code.len() && {
        let fr = s.frames.last();
        let c = fr.code[fr.idx];
        &&& !fr.nicemode
        &&& !fr.bfmode
        &&& !(exists|x: char| s.creating.contains(x))
        &&& (c == '?' || c == '$' || c == '&' || c == '4')
    }
}

/// Law: apart from the four commands that draw randomness, the machine is
/// deterministic: a state allows at most one outcome, so what a program
/// free of those commands computes is fixed by the step relation.
#[verifier::rlimit(100)]
pub proof fn lemma_step_deterministic(s: MachineModel, o1: StepOut, o2: StepOut)
    requires
        machine_step(s, o1),
        machine_step(s, o2),
        !draws_randomness(s),
    ensures
        o1 == o2,
{
}

/// `b` is reachable from `a` in exactly `n` machine steps.
pub open spec fn reach_n(n: nat, a: MachineModel, b: MachineModel) -> bool
    decreases n,
{
    if n == 0 {
        a == b
    } else {
        exists|mid: MachineModel|
            #[trigger] machine_step(a, StepOut::Next(mid)) && reach_n((n - 1) as nat, mid, b)
    }
}

/// A function table that agrees with the capture transform pointwise is that
/// transform.
pub proof fn lemma_put_funcs_agree(
    f0: Map<char, (Seq<char>, int)>,
    cr: Set<char>,
    c: char,
    f1: Map<char, (Seq<char>, int)>,
)
    requires
        f1.dom() == f0.dom(),
        forall|k: char|
            f0.dom().contains(k) ==> #[trigger] f1[k] == (if cr.contains(k) {
                (f0[k].0.push(c), f0[k].1)
            } else {
                f0[k]
            }),
    ensures
        f1 == put_funcs(f0, cr, c),
{
    assert(f1 =~= put_funcs(f0, cr, c));
}

/// Law: a reachable state followed by one more step is reachable in one more
/// step.
pub proof fn lemma_reach_snoc(n: nat, a: MachineModel, b: MachineModel, c2: MachineModel)
    requires
        reach_n(n, a, b),
        machine_step(b, StepOut::Next(c2)),
    ensures
        reach_n(n + 1, a, c2),
    decreases n,
{
    if n == 0 {
        assert(machine_step(a, StepOut::Next(c2)) && reach_n(0, c2, c2));
    } else {
        let mid = choose|mid: MachineModel|
            #[trigger] machine_step(a, StepOut::Next(mid)) && reach_n((n - 1) as nat, mid, b);
        lemma_reach_snoc((n - 1) as nat, mid, b, c2);
    }
}

} // verus!
