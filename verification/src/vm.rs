//! The bytecode interpreter: a stack machine with an accumulator
//! register, an operand stack, and an explicit frame stack for the
//! depth-counted block exits.  Its behaviour is exactly `run_n` of the
//! machine semantics.

use vstd::prelude::*;

use crate::diag::Diagnostic;
use crate::insn::{code_view, Code, Insn};
use crate::semantics::{run_n, start, step, Frame, Machine, Outcome, VmState};

verus! {

broadcast use crate::insn::lemma_code_view_len, crate::insn::lemma_code_view_index;

/// The frame stack as the semantics sees it: each suspended entry is a
/// reference to an enclosing instruction sequence plus the position at
/// which to resume it.
pub open spec fn frame_views<'c>(fs: Seq<(&'c Vec<Insn>, usize)>) -> Seq<Frame> {
    fs.map(|i: int, f: (&'c Vec<Insn>, usize)| Frame { code: code_view(f.0@), pc: f.1 as nat })
}

/// Drop the saved state of `n` suspended frames, then hand out the next
/// one (the unwind rule shared by `Exit`, its conditional forms and
/// `Restart`); `None` means no frame was left and the run is over.
fn unwind_frames<'c>(frames: &mut Vec<(&'c Vec<Insn>, usize)>, n: usize) -> (r: Option<
    (&'c Vec<Insn>, usize),
>)
    requires
        n <= old(frames)@.len(),
    ensures
        old(frames)@.len() == n ==> r is None && final(frames)@.len() == 0,
        old(frames)@.len() > n ==> r == Some(old(frames)@[old(frames)@.len() - n - 1])
            && final(frames)@ == old(frames)@.take(old(frames)@.len() - n - 1),
    {
    let newlen = frames.len() - n;
    frames.truncate(newlen);
    frames.pop()
}

/// The virtual machine.  `tos` is the accumulator register (the "top of
/// stack" kept out of the operand stack proper); `output` records every
/// value the `Print` instruction emits, in order.
pub struct VM {
    /// The operand stack below the accumulator.
    pub stack: Vec<i64>,
    /// The accumulator register.
    pub tos: i64,
    /// The values printed so far.
    pub output: Vec<i64>,
}

impl View for VM {
    type V = VmState;

    open spec fn view(&self) -> VmState {
        VmState { stack: self.stack@, tos: self.tos, out: self.output@ }
    }
}

impl Default for VM {
    /// The same machine as `VM::new`.
    fn default() -> (vm: Self)
        ensures
            vm@ == (VmState { stack: Seq::<i64>::empty(), tos: 0i64, out: Seq::<i64>::empty() }),
    {
        Self::new()
    }
}

impl VM {
    /// A fresh machine: empty operand stack, accumulator zero, nothing
    /// printed yet.
    pub fn new() -> (vm: Self)
        ensures
            vm@ == (VmState { stack: Seq::<i64>::empty(), tos: 0i64, out: Seq::<i64>::empty() }),
    {
        let vm = VM { stack: Vec::new(), tos: 0, output: Vec::new() };
        proof {
            assert(vm@ =~= VmState {
                stack: Seq::<i64>::empty(),
                tos: 0i64,
                out: Seq::<i64>::empty(),
            });
        }
        vm
    }

    /// The pop primitive: hand back the accumulator and replace it with
    /// the top of the operand stack; with an empty operand stack the
    /// machine is left untouched and the run must fail.
    pub fn pop(&mut self) -> (r: Result<i64, Diagnostic>)
        ensures
            old(self)@.stack.len() > 0 ==> r == Ok::<i64, Diagnostic>(old(self).tos)
                && final(self)@ == (VmState {
                    stack: old(self)@.stack.drop_last(),
                    tos: old(self)@.stack.last(),
                    out: old(self)@.out,
                }),
            old(self)@.stack.len() == 0 ==> r == Err::<i64, Diagnostic>(Diagnostic::StackEmpty)
                && final(self)@ == old(self)@,
    {
        let res = self.tos;
        match self.stack.pop() {
            Some(x) => {
                self.tos = x;
                proof {
                    assert(self@ =~= VmState {
                        stack: old(self)@.stack.drop_last(),
                        tos: old(self)@.stack.last(),
                        out: old(self)@.out,
                    });
                }
                Ok(res)
            },
            None => {
                proof {
                    assert(self@ =~= old(self)@);
                }
                Err(Diagnostic::StackEmpty)
            },
        }
    }

    /// Run a compiled program on this machine for at most `fuel`
    /// dispatch steps.
    ///
    /// The result is exactly what `fuel` steps of the machine semantics
    /// yield from the starting configuration: `Ok` when the program ran
    /// to completion (its result is then in `tos`, its printed values in
    /// `output`), the exact diagnostic when it failed, and `OutOfFuel`
    /// when it is still running after `fuel` steps — a program can loop
    /// forever through `Restart`, so a budget is demanded up front.
    pub fn execute(&mut self, code: &Code, fuel: u64) -> (r: Result<(), Diagnostic>)
        ensures
            match run_n(start(code_view(code@), old(self)@), fuel as nat) {
                Outcome::Running(m) => r == Err::<(), Diagnostic>(Diagnostic::OutOfFuel)
                    && final(self)@ == m.vm,
                Outcome::Done(v) => r == Ok::<(), Diagnostic>(()) && final(self)@ == v,
                Outcome::Failed(v, d) => r == Err::<(), Diagnostic>(d) && final(self)@ == v,
            },
    {
        let ghost init = start(code_view(code@), old(self)@);
        let mut cur_code: &Vec<Insn> = code;
        let mut pc: usize = 0;
        let mut frames: Vec<(&Vec<Insn>, usize)> = Vec::new();
        let mut fuel_left: u64 = fuel;
        let ghost mut cur = init;
        proof {
            assert(frame_views(frames@) =~= Seq::<Frame>::empty());
            assert(cur =~= (Machine {
                code: code_view(cur_code@),
                pc: pc as nat,
                frames: frame_views(frames@),
                vm: self@,
            }));
        }
        loop
            invariant
                init == start(code_view(code@), old(self)@),
                cur == (Machine {
                    code: code_view(cur_code@),
                    pc: pc as nat,
                    frames: frame_views(frames@),
                    vm: self@,
                }),
                run_n(cur, fuel_left as nat) == run_n(init, fuel as nat),
            decreases fuel_left,
        {
            if fuel_left == 0 {
                return Err(Diagnostic::OutOfFuel);
            }
            fuel_left = fuel_left - 1;
            let ghost prev = cur;
            if pc >= cur_code.len() {
                // Falling off the end of the sequence: an implicit Exit(0).
                let ghost l = frames@.len() as int;
                match unwind_frames(&mut frames, 0) {
                    None => {
                        proof {
                            assert(prev.frames.take(l) =~= prev.frames);
                            assert(step(prev) =~= Outcome::Done(self@));
                        }
                        return Ok(());
                    },
                    Some((c2, p2)) => {
                        cur_code = c2;
                        pc = p2;
                        proof {
                            assert(prev.frames.take(l) =~= prev.frames);
                            cur = Machine {
                                code: code_view(cur_code@),
                                pc: pc as nat,
                                frames: frame_views(frames@),
                                vm: self@,
                            };
                            assert(frame_views(frames@) =~= prev.frames.take(l).drop_last());
                            assert(step(prev) =~= Outcome::Running(cur));
                        }
                    },
                }
            } else {
                let old_pc = pc;
                pc = pc + 1;
                match &cur_code[old_pc] {
                    Insn::Const(k) => {
                        self.stack.push(self.tos);
                        self.tos = *k;
                        proof {
                            cur = Machine {
                                code: code_view(cur_code@),
                                pc: pc as nat,
                                frames: frame_views(frames@),
                                vm: self@,
                            };
                            assert(step(prev) =~= Outcome::Running(cur));
                        }
                    },
                    Insn::Dup => {
                        self.stack.push(self.tos);
                        proof {
                            cur = Machine {
                                code: code_view(cur_code@),
                                pc: pc as nat,
                                frames: frame_views(frames@),
                                vm: self@,
                            };
                            assert(step(prev) =~= Outcome::Running(cur));
                        }
                    },
                    Insn::Add => {
                        match self.stack.pop() {
                            Some(x) => {
                                self.tos = x.wrapping_add(self.tos);
                                proof {
                                    cur = Machine {
                                        code: code_view(cur_code@),
                                        pc: pc as nat,
                                        frames: frame_views(frames@),
                                        vm: self@,
                                    };
                                    assert(step(prev) =~= Outcome::Running(cur));
                                }
                            },
                            None => {
                                proof {
                                    assert(step(prev) =~= Outcome::Failed(
                                        self@,
                                        Diagnostic::StackEmpty,
                                    ));
                                }
                                return Err(Diagnostic::StackEmpty);
                            },
                        }
                    },
                    Insn::Sub => {
                        match self.stack.pop() {
                            Some(x) => {
                                self.tos = x.wrapping_sub(self.tos);
                                proof {
                                    cur = Machine {
                                        code: code_view(cur_code@),
                                        pc: pc as nat,
                                        frames: frame_views(frames@),
                                        vm: self@,
                                    };
                                    assert(step(prev) =~= Outcome::Running(cur));
                                }
                            },
                            None => {
                                proof {
                                    assert(step(prev) =~= Outcome::Failed(
                                        self@,
                                        Diagnostic::StackEmpty,
                                    ));
                                }
                                return Err(Diagnostic::StackEmpty);
                            },
                        }
                    },
                    Insn::Mul => {
                        match self.stack.pop() {
                            Some(x) => {
                                self.tos = x.wrapping_mul(self.tos);
                                proof {
                                    cur = Machine {
                                        code: code_view(cur_code@),
                                        pc: pc as nat,
                                        frames: frame_views(frames@),
                                        vm: self@,
                                    };
                                    assert(step(prev) =~= Outcome::Running(cur));
                                }
                            },
                            None => {
                                proof {
                                    assert(step(prev) =~= Outcome::Failed(
                                        self@,
                                        Diagnostic::StackEmpty,
                                    ));
                                }
                                return Err(Diagnostic::StackEmpty);
                            },
                        }
                    },
                    Insn::Negate => {
                        self.tos = 0i64.wrapping_sub(self.tos);
                        proof {
                            cur = Machine {
                                code: code_view(cur_code@),
                                pc: pc as nat,
                                frames: frame_views(frames@),
                                vm: self@,
                            };
                            assert(step(prev) =~= Outcome::Running(cur));
                        }
                    },
                    Insn::Print => {
                        match self.pop() {
                            Ok(v) => {
                                self.output.push(v);
                                proof {
                                    cur = Machine {
                                        code: code_view(cur_code@),
                                        pc: pc as nat,
                                        frames: frame_views(frames@),
                                        vm: self@,
                                    };
                                    assert(step(prev) =~= Outcome::Running(cur));
                                }
                            },
                            Err(d) => {
                                proof {
                                    assert(step(prev) =~= Outcome::Failed(
                                        self@,
                                        Diagnostic::StackEmpty,
                                    ));
                                }
                                return Err(d);
                            },
                        }
                    },
                    Insn::Block(inner) => {
                        frames.push((cur_code, pc));
                        cur_code = inner;
                        pc = 0;
                        proof {
                            cur = Machine {
                                code: code_view(cur_code@),
                                pc: pc as nat,
                                frames: frame_views(frames@),
                                vm: self@,
                            };
                            assert(frame_views(frames@) =~= prev.frames.push(
                                Frame { code: prev.code, pc: prev.pc + 1 },
                            ));
                            assert(step(prev) =~= Outcome::Running(cur));
                        }
                    },
                    Insn::SkipNextIfFalse => {
                        match self.pop() {
                            Ok(c) => {
                                if c == 0 && pc < cur_code.len() {
                                    pc = pc + 1;
                                }
                                proof {
                                    cur = Machine {
                                        code: code_view(cur_code@),
                                        pc: pc as nat,
                                        frames: frame_views(frames@),
                                        vm: self@,
                                    };
                                    assert(step(prev) =~= Outcome::Running(cur));
                                }
                            },
                            Err(d) => {
                                proof {
                                    assert(step(prev) =~= Outcome::Failed(
                                        self@,
                                        Diagnostic::StackEmpty,
                                    ));
                                }
                                return Err(d);
                            },
                        }
                    },
                    Insn::Exit(n) => {
                        let n = *n;
                        if n > frames.len() {
                            proof {
                                assert(step(prev) =~= Outcome::Failed(
                                    self@,
                                    Diagnostic::IllegalExit(n),
                                ));
                            }
                            return Err(Diagnostic::IllegalExit(n));
                        }
                        let ghost l = frames@.len() as int;
                        match unwind_frames(&mut frames, n) {
                            None => {
                                proof {
                                    assert(step(prev) =~= Outcome::Done(self@));
                                }
                                return Ok(());
                            },
                            Some((c2, p2)) => {
                                cur_code = c2;
                                pc = p2;
                                proof {
                                    cur = Machine {
                                        code: code_view(cur_code@),
                                        pc: pc as nat,
                                        frames: frame_views(frames@),
                                        vm: self@,
                                    };
                                    assert(frame_views(frames@) =~= prev.frames.take(
                                        l - n,
                                    ).drop_last());
                                    assert(step(prev) =~= Outcome::Running(cur));
                                }
                            },
                        }
                    },
                    Insn::ExitIfTrue(n) => {
                        let n = *n;
                        match self.pop() {
                            Err(d) => {
                                proof {
                                    assert(step(prev) =~= Outcome::Failed(
                                        self@,
                                        Diagnostic::StackEmpty,
                                    ));
                                }
                                return Err(d);
                            },
                            Ok(c) => {
                                if c != 0 {
                                    if n > frames.len() {
                                        proof {
                                            assert(step(prev) =~= Outcome::Failed(
                                                self@,
                                                Diagnostic::IllegalExitIfTrue(n),
                                            ));
                                        }
                                        return Err(Diagnostic::IllegalExitIfTrue(n));
                                    }
                                    let ghost l = frames@.len() as int;
                                    match unwind_frames(&mut frames, n) {
                                        None => {
                                            proof {
                                                assert(step(prev) =~= Outcome::Done(self@));
                                            }
                                            return Ok(());
                                        },
                                        Some((c2, p2)) => {
                                            cur_code = c2;
                                            pc = p2;
                                            proof {
                                                cur = Machine {
                                                    code: code_view(cur_code@),
                                                    pc: pc as nat,
                                                    frames: frame_views(frames@),
                                                    vm: self@,
                                                };
                                                assert(frame_views(frames@)
                                                    =~= prev.frames.take(l - n).drop_last());
                                                assert(step(prev) =~= Outcome::Running(cur));
                                            }
                                        },
                                    }
                                } else {
                                    proof {
                                        cur = Machine {
                                            code: code_view(cur_code@),
                                            pc: pc as nat,
                                            frames: frame_views(frames@),
                                            vm: self@,
                                        };
                                        assert(step(prev) =~= Outcome::Running(cur));
                                    }
                                }
                            },
                        }
                    },
                    Insn::ExitIfFalse(n) => {
                        let n = *n;
                        match self.pop() {
                            Err(d) => {
                                proof {
                                    assert(step(prev) =~= Outcome::Failed(
                                        self@,
                                        Diagnostic::StackEmpty,
                                    ));
                                }
                                return Err(d);
                            },
                            Ok(c) => {
                                if c == 0 {
                                    if n > frames.len() {
                                        proof {
                                            assert(step(prev) =~= Outcome::Failed(
                                                self@,
                                                Diagnostic::IllegalExitIfFalse(n),
                                            ));
                                        }
                                        return Err(Diagnostic::IllegalExitIfFalse(n));
                                    }
                                    let ghost l = frames@.len() as int;
                                    match unwind_frames(&mut frames, n) {
                                        None => {
                                            proof {
                                                assert(step(prev) =~= Outcome::Done(self@));
                                            }
                                            return Ok(());
                                        },
                                        Some((c2, p2)) => {
                                            cur_code = c2;
                                            pc = p2;
                                            proof {
                                                cur = Machine {
                                                    code: code_view(cur_code@),
                                                    pc: pc as nat,
                                                    frames: frame_views(frames@),
                                                    vm: self@,
                                                };
                                                assert(frame_views(frames@)
                                                    =~= prev.frames.take(l - n).drop_last());
                                                assert(step(prev) =~= Outcome::Running(cur));
                                            }
                                        },
                                    }
                                } else {
                                    proof {
                                        cur = Machine {
                                            code: code_view(cur_code@),
                                            pc: pc as nat,
                                            frames: frame_views(frames@),
                                            vm: self@,
                                        };
                                        assert(step(prev) =~= Outcome::Running(cur));
                                    }
                                }
                            },
                        }
                    },
                    Insn::Restart(n) => {
                        let n = *n;
                        if n == 0 {
                            pc = 0;
                            proof {
                                cur = Machine {
                                    code: code_view(cur_code@),
                                    pc: pc as nat,
                                    frames: frame_views(frames@),
                                    vm: self@,
                                };
                                assert(step(prev) =~= Outcome::Running(cur));
                            }
                        } else if n > frames.len() {
                            proof {
                                assert(step(prev) =~= Outcome::Failed(
                                    self@,
                                    Diagnostic::IllegalRestart(n),
                                ));
                            }
                            return Err(Diagnostic::IllegalRestart(n));
                        } else {
                            let ghost l = frames@.len() as int;
                            match unwind_frames(&mut frames, n) {
                                None => {
                                    proof {
                                        assert(step(prev) =~= Outcome::Done(self@));
                                    }
                                    return Ok(());
                                },
                                Some((c2, _p2)) => {
                                    cur_code = c2;
                                    pc = 0;
                                    proof {
                                        cur = Machine {
                                            code: code_view(cur_code@),
                                            pc: pc as nat,
                                            frames: frame_views(frames@),
                                            vm: self@,
                                        };
                                        assert(frame_views(frames@) =~= prev.frames.take(
                                            l - n,
                                        ).drop_last());
                                        assert(step(prev) =~= Outcome::Running(cur));
                                    }
                                },
                            }
                        }
                    },
                }
            }
            proof {
                assert(run_n(prev, fuel_left as nat + 1) == run_n(cur, fuel_left as nat));
            }
        }
    }
}

} // verus!
