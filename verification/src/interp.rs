use vstd::prelude::*;

use crate::Error;
use crate::cell_round;
use crate::fntable::FnTable;
use crate::fntable::FnTableModel;
use crate::machine::FrameModel;
use crate::machine::MachineModel;
use crate::machine::StepOut;
use crate::machine::break_target;
use crate::machine::byte_wrap;
use crate::machine::exec_start;
use crate::machine::char_byte;
use crate::machine::lemma_put_funcs_agree;
use crate::machine::lemma_reach_snoc;
use crate::machine::machine_step;
use crate::machine::paint_eights;
use crate::machine::reach_n;
use crate::machine::start_state;
use crate::machine::write_quoted;
use crate::pairing::PairingMap;
use crate::pairing::scan;
use crate::rng;
use crate::tape::Tape;
use crate::tape::TapeModel;
use crate::tape::step_left;
use crate::text;

verus! {

/// The defensive bound on how many invocation frames may be live at once.
pub const MAX_DEPTH: usize = 100;

/// The fixed reserved control symbols; every other character is a candidate
/// function identifier.
pub open spec fn is_reserved_char(c: char) -> bool {
    ||| c == '<' || c == '>' || c == '{' || c == '}' || c == '[' || c == ']' || c == '('
        || c == ')'
    ||| c == '+' || c == '-' || c == '*' || c == '/' || c == '!' || c == '.' || c == ','
        || c == '\\'
    ||| c == '#' || c == '?' || c == '$' || c == '&' || c == '@' || c == '"' || c == '`'
        || c == '~'
    ||| c == '|' || c == ';' || c == '^' || c == ':' || c == '\'' || c == '_' || c == '%'
        || c == '='
    ||| '0' <= c && c <= '9'
    ||| c == ' ' || c == '\n' || c == '\t'
}

fn reserved(c: char) -> (r: bool)
    ensures
        r == is_reserved_char(c),
{
    c == '<' || c == '>' || c == '{' || c == '}' || c == '[' || c == ']' || c == '(' || c == ')'
        || c == '+' || c == '-' || c == '*' || c == '/' || c == '!' || c == '.' || c == ','
        || c == '\\' || c == '#' || c == '?' || c == '$' || c == '&' || c == '@' || c == '"'
        || c == '`' || c == '~' || c == '|' || c == ';' || c == '^' || c == ':' || c == '\''
        || c == '_' || c == '%' || c == '=' || ('0' <= c && c <= '9') || c == ' ' || c == '\n'
        || c == '\t'
}

/// The reduced instruction subset that still executes while the restricted
/// mode is active.
pub open spec fn is_basic_char(c: char) -> bool {
    c == '<' || c == '>' || c == '+' || c == '-' || c == '[' || c == ']' || c == '.' || c == ','
        || c == '_' || c == ' ' || c == '\n' || c == '\t'
}

fn basic_allowed(c: char) -> (r: bool)
    ensures
        r == is_basic_char(c),
{
    c == '<' || c == '>' || c == '+' || c == '-' || c == '[' || c == ']' || c == '.' || c == ','
        || c == '_' || c == ' ' || c == '\n' || c == '\t'
}

/// A source of input bytes, consumed one at a time; once exhausted it yields
/// zero, as the single-byte read contract asks.
pub struct InputFeed {
    bytes: Vec<u8>,
    pos: usize,
}

impl InputFeed {
    pub closed spec fn bytes_v(&self) -> Seq<u8> {
        self.bytes@
    }

    pub closed spec fn pos_v(&self) -> int {
        self.pos as int
    }

    pub open spec fn wf(&self) -> bool {
        0 <= self.pos_v() <= self.bytes_v().len()
    }

    pub fn new(bytes: Vec<u8>) -> (r: InputFeed)
        ensures
            r.wf(),
            r.bytes_v() == bytes@,
            r.pos_v() == 0,
    {
        InputFeed { bytes, pos: 0 }
    }

    /// The next unread byte, or zero once the feed is exhausted.
    pub fn take_byte(&mut self) -> (b: u8)
        requires
            old(self).wf(),
        ensures
            final(self).wf(),
            final(self).bytes_v() == old(self).bytes_v(),
            old(self).pos_v() < old(self).bytes_v().len() ==> b == old(self).bytes_v()[old(
                self,
            ).pos_v()] && final(self).pos_v() == old(self).pos_v() + 1,
            old(self).pos_v() >= old(self).bytes_v().len() ==> b == 0 && final(self).pos_v()
                == old(self).pos_v(),
    {
        if self.pos < self.bytes.len() {
            let b = self.bytes[self.pos];
            self.pos = self.pos + 1;
            b
        } else {
            0
        }
    }
}

/// One invocation frame: its own buffer and pairing map, the next position
/// to execute, and the two mode flags.
struct Frame {
    code: Vec<char>,
    table: PairingMap,
    idx: usize,
    bfmode: bool,
    nicemode: bool,
}

impl Frame {
    /// The frame as the abstract machine sees it.
    spec fn m(&self) -> FrameModel {
        FrameModel {
            code: self.code@,
            table: self.table@,
            idx: self.idx as int,
            bfmode: self.bfmode,
            nicemode: self.nicemode,
        }
    }
}

/// The frame stack as the abstract machine sees it.
spec fn abs_frames(fs: Seq<Frame>) -> Seq<FrameModel> {
    Seq::new(fs.len(), |i: int| fs[i].m())
}

/// The whole running state as the abstract machine sees it.
spec fn cur_m(
    fs: Seq<Frame>,
    t: TapeModel,
    p: Seq<u8>,
    f: FnTableModel,
    src: Seq<char>,
    inb: Seq<u8>,
    pos: int,
) -> MachineModel {
    MachineModel {
        frames: abs_frames(fs),
        tape: t,
        printed: p,
        funcs: f.funcs,
        creating: f.creating,
        src_text: src,
        input: inb,
        pos,
    }
}

/// The nearest paired loop closer at or after `start`, or the buffer length
/// if there is none.
fn break_scan(code: &Vec<char>, table: &PairingMap, start: usize) -> (r: usize)
    requires
        start <= code@.len(),
    ensures
        r as int == break_target(code@, table@, start as int, code@.len() as int),
{
    let n = code.len();
    let mut i = start;
    while i < n
        invariant
            start <= i <= n,
            n == code@.len(),
            break_target(code@, table@, start as int, n as int) == break_target(
                code@,
                table@,
                i as int,
                n as int,
            ),
        decreases n - i,
    {
        if code[i] == ']' {
            match table.get_by_right(i) {
                Some(v) => {
                    proof {
                        assert(table@.dom().contains(v as int) && table@[v as int] == i as int);
                        assert(crate::pairing::in_range(table@, i as int));
                    }
                    return i;
                },
                None => {
                    proof {
                        assert(!crate::pairing::in_range(table@, i as int));
                    }
                },
            }
        }
        i += 1;
    }
    n
}

fn push_frame(frames: &mut Vec<Frame>, f: Frame)
    requires
        f.table.wf(),
        forall|j: int| 0 <= j < old(frames)@.len() ==> (#[trigger] old(frames)@[j]).table.wf(),
    ensures
        final(frames)@ == old(frames)@.push(f),
        final(frames)@.len() == old(frames)@.len() + 1,
        forall|j: int| 0 <= j < final(frames)@.len() ==> (#[trigger] final(frames)@[j]).table.wf(),
{
    frames.push(f);
    proof {
        assert forall|j: int| 0 <= j < frames@.len() implies (#[trigger] frames@[j]).table.wf() by {
            if j < frames@.len() - 1 {
                assert(frames@[j] == old(frames)@[j]);
            } else {
                assert(frames@[j] == f);
            }
        }
    }
}

/// `i + 1`, capped at `n` so a jump beyond the buffer simply ends the frame.
fn advance1(i: usize, n: usize) -> (r: usize)
    ensures
        i < n ==> r == i + 1,
        i >= n ==> r == n,
{
    if i < n {
        i + 1
    } else {
        n
    }
}

/// An independent copy of a byte buffer.
fn copy_bytes(v: &Vec<u8>) -> (r: Vec<u8>)
    ensures
        r@ == v@,
{
    let mut out: Vec<u8> = Vec::new();
    let mut i: usize = 0;
    while i < v.len()
        invariant
            i <= v@.len(),
            out@ == v@.take(i as int),
        decreases v@.len() - i,
    {
        out.push(v[i]);
        proof {
            assert(out@ =~= v@.take(i + 1));
        }
        i += 1;
    }
    proof {
        assert(v@.take(v@.len() as int) =~= v@);
    }
    out
}

proof fn lemma_prefix_push(a: Seq<u8>, b: Seq<u8>, x: u8)
    requires
        a.is_prefix_of(b),
    ensures
        a.is_prefix_of(b.push(x)),
{
    assert(b.push(x).subrange(0, a.len() as int) =~= b.subrange(0, a.len() as int));
}

proof fn lemma_prefix_concat(a: Seq<u8>, b: Seq<u8>, c: Seq<u8>)
    requires
        a.is_prefix_of(b),
    ensures
        a.is_prefix_of(b + c),
{
    assert((b + c).subrange(0, a.len() as int) =~= b.subrange(0, a.len() as int));
}

/// The bytes of the fixed line that the nice mode prints for every character
/// but its terminator.
pub open spec fn nice_line() -> Seq<u8> {
    seq![78u8, 105u8, 99u8, 101u8, 46u8, 10u8]
}

fn emit_nice(printed: &mut Vec<u8>)
    ensures
        final(printed)@ == old(printed)@ + nice_line(),
{
    printed.push(78);
    printed.push(105);
    printed.push(99);
    printed.push(101);
    printed.push(46);
    printed.push(10);
    proof {
        assert(printed@ =~= old(printed)@ + nice_line());
    }
}

/// Execute a character buffer against shared machine state: one dispatch
/// loop over an explicit stack of invocation frames. Function invocation and
/// quine re-execution push a frame instead of recursing, so the depth bound
/// is explicit; each executed step consumes one unit of `fuel`. Output is
/// only ever appended to `printed`; the `source` text is what the echo
/// command emits. The quine command runs the output buffer under a pairing
/// map built freshly from that buffer, so its jumps resolve against the code
/// it actually executes.
///
/// Every outcome is justified against the abstract machine of the `machine`
/// module: on success the final tape, output, function table and input
/// position are those of a machine state reachable from the start state; an
/// exhausted budget certifies a trace of exactly `fuel` steps; and every
/// other error is one the machine itself reaches and raises. A state with no
/// frames left takes no step (`lemma_terminal_absorbing`), and apart from the
/// four commands that draw randomness the relation allows at most one outcome
/// per state (`lemma_step_deterministic`), so what a given program free of
/// those commands computes follows from this contract; the random commands
/// are related to every outcome they allow.
#[verifier::rlimit(100)]
#[verifier::spinoff_prover]
pub fn run(
    code: Vec<char>,
    source: &str,
    table: PairingMap,
    tape: &mut Tape,
    printed: &mut Vec<u8>,
    fnt: &mut FnTable,
    input: &mut InputFeed,
    fuel: u64,
) -> (r: Result<(), Error>)
    requires
        old(fnt).wf(),
        old(input).wf(),
        table.wf(),
    ensures
        final(fnt).wf(),
        final(input).wf(),
        final(input).bytes_v() == old(input).bytes_v(),
        final(input).pos_v() >= old(input).pos_v(),
        old(printed)@.is_prefix_of(final(printed)@),
        fuel == 0 ==> r == Err::<(), Error>(Error::StepLimitExceeded),
        r is Ok ==> exists|nsteps: nat, s2: MachineModel|
            reach_n(
                nsteps,
                start_state(code@, table@, old(tape)@, old(printed)@, old(fnt)@, source@, old(input).bytes_v(), old(input).pos_v()),
                s2,
            ) && s2.frames.len() == 0 && s2.printed == final(printed)@ && s2.tape == final(tape)@
                && s2.funcs == final(fnt)@.funcs && s2.creating == final(fnt)@.creating && s2.pos
                == final(input).pos_v(),
        r == Err::<(), Error>(Error::StepLimitExceeded) ==> exists|s2: MachineModel|
            reach_n(
                fuel as nat,
                start_state(code@, table@, old(tape)@, old(printed)@, old(fnt)@, source@, old(input).bytes_v(), old(input).pos_v()),
                s2,
            ) && s2.frames.len() > 0,
        r matches Err(e) ==> e == Error::StepLimitExceeded || exists|nsteps: nat, s2: MachineModel|
            reach_n(
                nsteps,
                start_state(code@, table@, old(tape)@, old(printed)@, old(fnt)@, source@, old(input).bytes_v(), old(input).pos_v()),
                s2,
            ) && machine_step(s2, StepOut::Fail(e)),
{
    let ghost ginit = start_state(
        code@,
        table@,
        old(tape)@,
        old(printed)@,
        old(fnt)@,
        source@,
        old(input).bytes_v(),
        old(input).pos_v(),
    );
    proof {
        assert(printed@.subrange(0, printed@.len() as int) =~= printed@);
    }
    let mut frames: Vec<Frame> = Vec::new();
    push_frame(&mut frames, Frame { code, table, idx: 0, bfmode: false, nicemode: false });
    let ghost mut steps: nat = 0;
    proof {
        assert(abs_frames(frames@) =~= ginit.frames);
        assert(ginit == cur_m(
            frames@,
            tape@,
            printed@,
            fnt@,
            source@,
            input.bytes_v(),
            input.pos_v(),
        ));
    }
    let mut gas = fuel;
    while frames.len() > 0
        invariant
            fnt.wf(),
            input.wf(),
            input.bytes_v() == old(input).bytes_v(),
            input.pos_v() >= old(input).pos_v(),
            old(printed)@.is_prefix_of(printed@),
            gas <= fuel,
            steps + gas == fuel,
            ginit == start_state(
                code@,
                table@,
                old(tape)@,
                old(printed)@,
                old(fnt)@,
                source@,
                old(input).bytes_v(),
                old(input).pos_v(),
            ),
            fuel == 0 ==> frames@.len() > 0,
            forall|j: int| 0 <= j < frames@.len() ==> (#[trigger] frames@[j]).table.wf(),
            reach_n(
                steps,
                ginit,
                cur_m(frames@, tape@, printed@, fnt@, source@, input.bytes_v(), input.pos_v()),
            ),
        decreases gas,
    {
        if gas == 0 {
            proof {
                let gnow = cur_m(
                    frames@,
                    tape@,
                    printed@,
                    fnt@,
                    source@,
                    input.bytes_v(),
                    input.pos_v(),
                );
                assert(reach_n(fuel as nat, ginit, gnow) && gnow.frames.len() > 0);
                assert(ginit == start_state(
                    code@,
                    table@,
                    old(tape)@,
                    old(printed)@,
                    old(fnt)@,
                    source@,
                    old(input).bytes_v(),
                    old(input).pos_v(),
                ));
                assert(exists|s2: MachineModel|
                    reach_n(
                        fuel as nat,
                        start_state(code@, table@, old(tape)@, old(printed)@, old(fnt)@, source@, old(input).bytes_v(), old(input).pos_v()),
                        s2,
                    ) && s2.frames.len() > 0);
            }
            return Err(Error::StepLimitExceeded);
        }
        gas = gas - 1;
        proof {
            assert(ginit == start_state(
                code@,
                table@,
                old(tape)@,
                old(printed)@,
                old(fnt)@,
                source@,
                old(input).bytes_v(),
                old(input).pos_v(),
            ));
        }
        let ghost gpre = cur_m(
            frames@,
            tape@,
            printed@,
            fnt@,
            source@,
            input.bytes_v(),
            input.pos_v(),
        );
        proof {
            assert(gpre.frames.len() == frames@.len());
            assert(gpre.frames.len() > 0);
        }
        let ghost pre = frames@;
        let mut fr = match frames.pop() {
            Some(f) => f,
            None => {
                return Ok(());
            },
        };
        proof {
            assert(pre[pre.len() - 1].table.wf());
            assert(fr.table.wf());
            assert(gpre.frames.last() == fr.m());
            assert(abs_frames(frames@) =~= gpre.frames.drop_last());
        }
        let n = fr.code.len();
        if fr.idx >= n {
            proof {
                let gnow = cur_m(
                    frames@,
                    tape@,
                    printed@,
                    fnt@,
                    source@,
                    input.bytes_v(),
                    input.pos_v(),
                );
                assert(machine_step(gpre, StepOut::Next(gnow)));
                lemma_reach_snoc(steps, ginit, gpre, gnow);
                steps = steps + 1;
            }
            continue;
        }
        let c = fr.code[fr.idx];
        if fr.nicemode {
            if c == '9' {
                fr.nicemode = false;
            } else {
                let ghost before = printed@;
                emit_nice(printed);
                proof {
                    lemma_prefix_concat(old(printed)@, before, nice_line());
                }
            }
            fr.idx = advance1(fr.idx, n);
            push_frame(&mut frames, fr);
            proof {
                assert(abs_frames(frames@) =~= gpre.frames.drop_last().push(
                    frames@.last().m(),
                ));
                let gnow = cur_m(
                    frames@,
                    tape@,
                    printed@,
                    fnt@,
                    source@,
                    input.bytes_v(),
                    input.pos_v(),
                );
                assert(machine_step(gpre, StepOut::Next(gnow)));
                lemma_reach_snoc(steps, ginit, gpre, gnow);
                steps = steps + 1;
            }
            continue;
        }
        if fr.bfmode {
            if !basic_allowed(c) {
                fr.idx = advance1(fr.idx, n);
                push_frame(&mut frames, fr);
            proof {
                assert(abs_frames(frames@) =~= gpre.frames.drop_last().push(
                    frames@.last().m(),
                ));
                let gnow = cur_m(
                    frames@,
                    tape@,
                    printed@,
                    fnt@,
                    source@,
                    input.bytes_v(),
                    input.pos_v(),
                );
                assert(machine_step(gpre, StepOut::Next(gnow)));
                lemma_reach_snoc(steps, ginit, gpre, gnow);
                steps = steps + 1;
            }
                continue;
            }
        } else if !reserved(c) {
            if n > 2 && fr.idx < n - 2 && fr.code[fr.idx + 1] == '=' {
                let from = fr.code[fr.idx + 2];
                fnt.copy_fn(from, c);
                fr.idx = fr.idx + 3;
                push_frame(&mut frames, fr);
            proof {
                assert(abs_frames(frames@) =~= gpre.frames.drop_last().push(
                    frames@.last().m(),
                ));
                let gnow = cur_m(
                    frames@,
                    tape@,
                    printed@,
                    fnt@,
                    source@,
                    input.bytes_v(),
                    input.pos_v(),
                );
                assert(machine_step(gpre, StepOut::Next(gnow)));
                lemma_reach_snoc(steps, ginit, gpre, gnow);
                steps = steps + 1;
            }
                continue;
            }
        } else if fnt.any_creating() {
            fnt.put(c);
            proof {
                lemma_put_funcs_agree(gpre.funcs, gpre.creating, c, fnt@.funcs);
            }
            fr.idx = advance1(fr.idx, n);
            push_frame(&mut frames, fr);
            proof {
                assert(abs_frames(frames@) =~= gpre.frames.drop_last().push(
                    frames@.last().m(),
                ));
                let gnow = cur_m(
                    frames@,
                    tape@,
                    printed@,
                    fnt@,
                    source@,
                    input.bytes_v(),
                    input.pos_v(),
                );
                assert(machine_step(gpre, StepOut::Next(gnow)));
                lemma_reach_snoc(steps, ginit, gpre, gnow);
                steps = steps + 1;
            }
            continue;
        }
        match c {
            '>' => {
                tape.next();
            },
            '<' => {
                tape.prev();
            },
            '{' => {
                let _dropped: u8 = tape.delete_left();
            },
            '}' => {
                let _dropped: u8 = tape.delete_right();
            },
            '(' => {
                tape.insert_left(0);
            },
            ')' => {
                tape.insert_right(0);
            },
            '+' => {
                tape.set(tape.get().wrapping_add(1));
                proof {
                    assert(tape@.cell == byte_wrap(gpre.tape.cell + 1));
                }
            },
            '-' => {
                tape.set(tape.get().wrapping_sub(1));
                proof {
                    assert(tape@.cell == byte_wrap(gpre.tape.cell - 1));
                }
            },
            '*' => {
                tape.set(tape.get().wrapping_mul(tape.get_next()));
                proof {
                    assert(tape@.cell == byte_wrap(
                        gpre.tape.cell * crate::machine::lookahead(gpre.tape),
                    ));
                }
            },
            '/' => {
                let d = tape.get_next();
                if d == 0 {
                    tape.set(255);
                } else {
                    tape.set(tape.get() / d);
                }
            },
            '!' => {
                let v = tape.get();
                if v == 0 {
                    tape.set(1);
                } else if v == 1 {
                    tape.set(0);
                }
            },
            '.' => {
                let ghost before = printed@;
                let b = tape.get();
                printed.push(b);
                proof {
                    lemma_prefix_push(old(printed)@, before, b);
                }
            },
            ',' => {
                let b = input.take_byte();
                tape.set(b);
            },
            '[' => {
                if tape.get() == 0 {
                    match fr.table.get_by_left(fr.idx) {
                        Some(t) => {
                            fr.idx = t;
                        },
                        None => {
                            proof {
                                assert(machine_step(
                                    gpre,
                                    StepOut::Fail(Error::UnresolvedPair(fr.idx)),
                                ));
                            }
                            return Err(Error::UnresolvedPair(fr.idx));
                        },
                    }
                }
            },
            ']' => {
                if tape.get() != 0 {
                    match fr.table.get_by_right(fr.idx) {
                        Some(t) => {
                            proof {
                                let gfr = gpre.frames.last();
                                assert(gfr.table.dom().contains(t as int) && gfr.table[t as int]
                                    == gfr.idx);
                                assert(crate::pairing::in_range(gfr.table, gfr.idx));
                                let l0 = choose|l: int|
                                    gfr.table.dom().contains(l) && #[trigger] gfr.table[l]
                                        == gfr.idx;
                                assert(t as int == l0);
                            }
                            fr.idx = t;
                        },
                        None => {
                            proof {
                                assert(machine_step(
                                    gpre,
                                    StepOut::Fail(Error::UnresolvedPair(fr.idx)),
                                ));
                            }
                            return Err(Error::UnresolvedPair(fr.idx));
                        },
                    }
                }
            },
            '\\' => {
                let t = break_scan(&fr.code, &fr.table, fr.idx);
                if t < n {
                    fr.idx = t;
                }
            },
            '#' => {
                if tape.get() != tape.get_next() {
                    fr.idx = advance1(fr.idx, n);
                }
            },
            '?' => {
                let b = rng::byte();
                tape.set(b);
                proof {
                    assert(tape@ == crate::machine::set_cell(gpre.tape, b));
                }
            },
            '$' => {
                if rng::coin() {
                    tape.next();
                } else {
                    tape.prev();
                }
            },
            '&' => {
                if rng::coin() {
                    fr.idx = advance1(fr.idx, n);
                }
            },
            '@' => {
                proof {
                    let gnow = cur_m(
                        frames@,
                        tape@,
                        printed@,
                        fnt@,
                        source@,
                        input.bytes_v(),
                        input.pos_v(),
                    );
                    assert(machine_step(gpre, StepOut::Next(gnow)));
                    lemma_reach_snoc(steps, ginit, gpre, gnow);
                    steps = steps + 1;
                }
                continue ;
            },
            '"' => {
                match fr.table.get_by_left(fr.idx) {
                    None => {
                        proof {
                            assert(machine_step(
                                gpre,
                                StepOut::Fail(Error::UnresolvedPair(fr.idx)),
                            ));
                        }
                        return Err(Error::UnresolvedPair(fr.idx));
                    },
                    Some(end) => {
                        if end > n {
                            proof {
                                assert(machine_step(
                                    gpre,
                                    StepOut::Fail(Error::UnresolvedPair(fr.idx)),
                                ));
                            }
                            return Err(Error::UnresolvedPair(fr.idx));
                        }
                        let ghost t0 = tape@;
                        let ghost i0 = fr.idx as int;
                        let mut k = fr.idx + 1;
                        while k < end
                            invariant
                                end <= fr.code@.len(),
                                i0 + 1 <= k <= end,
                                write_quoted(t0, fr.code@, i0 + 1, end as int) == write_quoted(
                                    tape@,
                                    fr.code@,
                                    k as int,
                                    end as int,
                                ),
                            decreases end - k,
                        {
                            tape.next();
                            let ch = fr.code[k];
                            let low = ch as u32 % 256;
                            proof {
                                assert(low < 256);
                                assert(low as u8 == char_byte(fr.code@[k as int]));
                            }
                            tape.set(low as u8);
                            k = k + 1;
                        }
                        proof {
                            assert(tape@ == write_quoted(t0, fr.code@, i0 + 1, end as int));
                        }
                        fr.idx = end;
                    },
                }
            },
            '`' => {
                tape.set(tape.get() << 1);
            },
            '~' => {
                tape.set(tape.get() >> 1);
            },
            '|' => {
                fr.idx = 0;
                push_frame(&mut frames, fr);
            proof {
                assert(abs_frames(frames@) =~= gpre.frames.drop_last().push(
                    frames@.last().m(),
                ));
                let gnow = cur_m(
                    frames@,
                    tape@,
                    printed@,
                    fnt@,
                    source@,
                    input.bytes_v(),
                    input.pos_v(),
                );
                assert(machine_step(gpre, StepOut::Next(gnow)));
                lemma_reach_snoc(steps, ginit, gpre, gnow);
                steps = steps + 1;
            }
                continue ;
            },
            ';' => {
                let ghost before = printed@;
                let mut sb = text::bytes_of(source);
                let ghost sbv = sb@;
                printed.append(&mut sb);
                proof {
                    lemma_prefix_concat(old(printed)@, before, sbv);
                }
            },
            '^' => {
                match fr.table.get_by_left(fr.idx) {
                    Some(t) => {
                        fr.idx = t;
                    },
                    None => {
                        proof {
                            assert(machine_step(
                                gpre,
                                StepOut::Fail(Error::UnresolvedPair(fr.idx)),
                            ));
                        }
                        return Err(Error::UnresolvedPair(fr.idx));
                    },
                }
            },
            ':' => {
                tape.set_next(tape.get());
            },
            '\'' => {
                let ob = copy_bytes(printed);
                match text::utf8_string(ob) {
                    None => {
                        proof {
                            assert(machine_step(
                                gpre,
                                StepOut::Fail(Error::InvalidOutputBytes),
                            ));
                        }
                        return Err(Error::InvalidOutputBytes);
                    },
                    Some(t) => {
                        let newcode = text::chars_of(t.as_str());
                        let ntable = match PairingMap::build(&newcode) {
                            Ok(m) => m,
                            Err(e) => {
                                proof {
                                    assert(machine_step(gpre, StepOut::Fail(e)));
                                }
                                return Err(e);
                            },
                        };
                        fr.idx = advance1(fr.idx, n);
                        push_frame(&mut frames, fr);
                        if frames.len() >= MAX_DEPTH {
                            proof {
                                assert(machine_step(
                                    gpre,
                                    StepOut::Fail(Error::RecursionLimitExceeded),
                                ));
                            }
                            return Err(Error::RecursionLimitExceeded);
                        }
                        push_frame(
                            &mut frames,
                            Frame {
                                code: newcode,
                                table: ntable,
                                idx: 0,
                                bfmode: false,
                                nicemode: false,
                            },
                        );
                        proof {
                            assert(abs_frames(frames@) =~= gpre.frames.drop_last().push(
                                frames@[frames@.len() - 2].m(),
                            ).push(frames@.last().m()));
                            let gnow = cur_m(
                                frames@,
                                tape@,
                                printed@,
                                fnt@,
                                source@,
                                input.bytes_v(),
                                input.pos_v(),
                            );
                            assert(machine_step(gpre, StepOut::Next(gnow)));
                            lemma_reach_snoc(steps, ginit, gpre, gnow);
                            steps = steps + 1;
                        }
                        continue ;
                    },
                }
            },
            '_' => {
                fr.bfmode = !fr.bfmode;
            },
            '%' => {
                match fr.table.get_by_left(fr.idx) {
                    Some(t) => {
                        if tape.get() == 0 {
                            fr.idx = t;
                        }
                    },
                    None => {
                        match fr.table.get_by_right(fr.idx) {
                            Some(t) => {
                                proof {
                                    let gfr = gpre.frames.last();
                                    assert(gfr.table.dom().contains(t as int) && gfr.table[t
                                        as int] == gfr.idx);
                                    assert(crate::pairing::in_range(gfr.table, gfr.idx));
                                    let l0 = choose|l: int|
                                        gfr.table.dom().contains(l) && #[trigger] gfr.table[l]
                                            == gfr.idx;
                                    assert(t as int == l0);
                                }
                                if tape.get() != 0 {
                                    fr.idx = t;
                                }
                            },
                            None => {},
                        }
                    },
                }
            },
            '0' => {
                match fr.table.get_by_left(fr.idx) {
                    Some(t) => {
                        fr.idx = t;
                    },
                    None => {
                        match fr.table.get_by_right(fr.idx) {
                            Some(t) => {
                                proof {
                                    let gfr = gpre.frames.last();
                                    assert(gfr.table.dom().contains(t as int) && gfr.table[t
                                        as int] == gfr.idx);
                                    assert(crate::pairing::in_range(gfr.table, gfr.idx));
                                    let l0 = choose|l: int|
                                        gfr.table.dom().contains(l) && #[trigger] gfr.table[l]
                                            == gfr.idx;
                                    assert(t as int == l0);
                                }
                                fr.idx = t;
                            },
                            None => {},
                        }
                    },
                }
            },
            '1' => {
                proof {
                    assert(machine_step(gpre, StepOut::Fail(Error::Unimplemented('1'))));
                }
                return Err(Error::Unimplemented('1'));
            },
            '2' => {
                tape.expand_2();
            },
            '3' => {
                tape.expand_3();
            },
            '4' => {
                tape.randomize();
                proof {
                    assert(crate::machine::randomized(gpre.tape, tape@));
                }
            },
            '5' => {
                tape.set(cell_round(tape.get()));
                proof {
                    assert(0 <= crate::round5(gpre.tape.cell as int) < 256);
                    assert(tape@.cell == crate::round5(gpre.tape.cell as int) as u8);
                }
            },
            '6' => {
                fr.nicemode = true;
            },
            '7' => {
                proof {
                    assert(machine_step(gpre, StepOut::Fail(Error::Unimplemented('7'))));
                }
                return Err(Error::Unimplemented('7'));
            },
            '8' => {
                tape.prev();
                tape.prev();
                tape.prev();
                let ghost t3 = tape@;
                let mut k: usize = 0;
                while k < 7
                    invariant
                        k <= 7,
                        paint_eights(t3, 7) == paint_eights(tape@, (7 - k) as nat),
                    decreases 7 - k,
                {
                    tape.set(8);
                    tape.next();
                    k = k + 1;
                }
                proof {
                    assert(tape@ == paint_eights(
                        step_left(step_left(step_left(gpre.tape))),
                        7,
                    ));
                }
            },
            '9' => {},
            ' ' | '\n' | '\t' => {},
            '=' => {
                // the copy-assignment form is consumed before dispatch; a
                // stray marker has no behaviour of its own
                proof {
                    assert(machine_step(gpre, StepOut::Fail(Error::Unimplemented('='))));
                }
                return Err(Error::Unimplemented('='));
            },
            _ => {
                match fnt.get(c) {
                    Some((body, start)) => {
                        let ntable = fr.table.offset(start);
                        fr.idx = advance1(fr.idx, n);
                        push_frame(&mut frames, fr);
                        if frames.len() >= MAX_DEPTH {
                            proof {
                                assert(machine_step(
                                    gpre,
                                    StepOut::Fail(Error::RecursionLimitExceeded),
                                ));
                            }
                            return Err(Error::RecursionLimitExceeded);
                        }
                        push_frame(
                            &mut frames,
                            Frame {
                                code: body,
                                table: ntable,
                                idx: 0,
                                bfmode: false,
                                nicemode: false,
                            },
                        );
                        proof {
                            assert(abs_frames(frames@) =~= gpre.frames.drop_last().push(
                                frames@[frames@.len() - 2].m(),
                            ).push(frames@.last().m()));
                            let gnow = cur_m(
                                frames@,
                                tape@,
                                printed@,
                                fnt@,
                                source@,
                                input.bytes_v(),
                                input.pos_v(),
                            );
                            assert(machine_step(gpre, StepOut::Next(gnow)));
                            lemma_reach_snoc(steps, ginit, gpre, gnow);
                            steps = steps + 1;
                        }
                        continue ;
                    },
                    None => {
                        if fnt.is_creating(c) {
                            fnt.end(c);
                        } else {
                            fnt.begin(c, fr.idx + 1);
                        }
                    },
                }
            },
        }
        fr.idx = advance1(fr.idx, n);
        push_frame(&mut frames, fr);
        proof {
            assert(abs_frames(frames@) =~= gpre.frames.drop_last().push(frames@.last().m()));
            let gnow = cur_m(
                frames@,
                tape@,
                printed@,
                fnt@,
                source@,
                input.bytes_v(),
                input.pos_v(),
            );
            assert(machine_step(gpre, StepOut::Next(gnow)));
            lemma_reach_snoc(steps, ginit, gpre, gnow);
            steps = steps + 1;
        }
    }
    proof {
        assert(ginit == start_state(
            code@,
            table@,
            old(tape)@,
            old(printed)@,
            old(fnt)@,
            source@,
            old(input).bytes_v(),
            old(input).pos_v(),
        ));
        assert(abs_frames(frames@) =~= Seq::<FrameModel>::empty());
        let termm = MachineModel {
            frames: Seq::empty(),
            tape: tape@,
            printed: printed@,
            funcs: fnt@.funcs,
            creating: fnt@.creating,
            src_text: source@,
            input: input.bytes_v(),
            pos: input.pos_v(),
        };
        assert(reach_n(steps, ginit, termm));
        assert(exists|nsteps: nat, s2: MachineModel|
            reach_n(
                nsteps,
                start_state(code@, table@, old(tape)@, old(printed)@, old(fnt)@, source@, old(input).bytes_v(), old(input).pos_v()),
                s2,
            ) && s2.frames.len() == 0 && s2.printed == printed@ && s2.tape == tape@ && s2.funcs
            == fnt@.funcs && s2.creating == fnt@.creating && s2.pos == input.pos_v());
    }
    Ok(())
}

/// Execute a whole program: build its pairing map, then run it on a fresh
/// tape, an empty output buffer and a fresh function table, feeding it the
/// given input bytes one at a time. Returns every byte the program emitted.
/// A buffer whose scan finds an unmatched loop closer is rejected before
/// anything executes. On a well-scanned program the returned bytes are the
/// output of a machine state reachable from that program's start state in
/// which every frame has run to completion, and any error is one the machine
/// reaches; the run is bounded by an explicit step budget so large that its
/// exhaustion is unobservable in practice.
pub fn exec(code: &str, input_bytes: Vec<u8>) -> (r: Result<Vec<u8>, Error>)
    ensures
        scan(code@).fail is Some ==> (match r {
            Err(Error::MismatchedBrackets(q)) => scan(code@).fail == Some(q as int),
            _ => false,
        }),
        r is Ok ==> scan(code@).fail is None,
        scan(code@).fail is None ==> (match r {
            Ok(out) => exists|nsteps: nat, s2: MachineModel|
                reach_n(nsteps, exec_start(code@, input_bytes@), s2) && s2.frames.len() == 0
                    && s2.printed == out@,
            Err(e) => e == Error::StepLimitExceeded || exists|nsteps: nat, s2: MachineModel|
                reach_n(nsteps, exec_start(code@, input_bytes@), s2) && machine_step(
                    s2,
                    StepOut::Fail(e),
                ),
        }),
        r matches Err(Error::StepLimitExceeded) ==> exists|s2: MachineModel|
            reach_n(u64::MAX as nat, exec_start(code@, input_bytes@), s2) && s2.frames.len() > 0,
{
    let chars = text::chars_of(code);
    let table = match PairingMap::build(&chars) {
        Ok(t) => t,
        Err(e) => {
            return Err(e);
        },
    };
    let mut tape = Tape::new();
    let mut printed: Vec<u8> = Vec::new();
    let mut fnt = FnTable::new();
    let mut feed = InputFeed::new(input_bytes);
    let ghost g0tape = tape@;
    let ghost g0printed = printed@;
    let ghost g0fnt = fnt@;
    let ghost g0in = feed.bytes_v();
    let ghost g0pos = feed.pos_v();
    proof {
        assert(g0tape == (TapeModel { left: Seq::empty(), right: Seq::empty(), cell: 0u8 }));
        assert(seq![
            FrameModel { code: chars@, table: table@, idx: 0, bfmode: false, nicemode: false },
        ] =~= seq![
            FrameModel {
                code: code@,
                table: scan(code@).pairs,
                idx: 0,
                bfmode: false,
                nicemode: false,
            },
        ]);
        assert(start_state(chars@, table@, g0tape, g0printed, g0fnt, code@, g0in, g0pos)
            == exec_start(code@, input_bytes@));
    }
    match run(chars, code, table, &mut tape, &mut printed, &mut fnt, &mut feed, u64::MAX) {
        Ok(()) => {
            proof {
                let (n0, s0) = choose|n0: nat, s0: MachineModel|
                    reach_n(
                        n0,
                        start_state(chars@, table@, g0tape, g0printed, g0fnt, code@, g0in, g0pos),
                        s0,
                    ) && s0.frames.len() == 0 && s0.printed == printed@;
                assert(reach_n(n0, exec_start(code@, input_bytes@), s0) && s0.frames.len() == 0
                    && s0.printed == printed@);
            }
            Ok(printed)
        },
        Err(e) => {
            proof {
                if e == Error::StepLimitExceeded {
                    let s0 = choose|s0: MachineModel|
                        reach_n(
                            u64::MAX as nat,
                            start_state(
                                chars@,
                                table@,
                                g0tape,
                                g0printed,
                                g0fnt,
                                code@,
                                g0in,
                                g0pos,
                            ),
                            s0,
                        ) && s0.frames.len() > 0;
                    assert(reach_n(u64::MAX as nat, exec_start(code@, input_bytes@), s0)
                        && s0.frames.len() > 0);
                }
                if e != Error::StepLimitExceeded {
                    let (n0, s0) = choose|n0: nat, s0: MachineModel|
                        reach_n(
                            n0,
                            start_state(
                                chars@,
                                table@,
                                g0tape,
                                g0printed,
                                g0fnt,
                                code@,
                                g0in,
                                g0pos,
                            ),
                            s0,
                        ) && machine_step(s0, StepOut::Fail(e));
                    assert(reach_n(n0, exec_start(code@, input_bytes@), s0) && machine_step(
                        s0,
                        StepOut::Fail(e),
                    ));
                }
            }
            Err(e)
        },
    }
}

} // verus!
