//! Laws that span several stages of the toolchain: a source without
//! operators does nothing, and the lowered bytecode of any tree runs
//! exactly as a reference tree-walking interpretation of that tree.

use vstd::prelude::*;
use crate::token::Token;
use crate::token::token_of;
use crate::token::spec_tokenize;
use crate::parser::ParseElement;
use crate::parser::flat;
use crate::parser::flat_elem;
use crate::parser::flat_elems;
use crate::lower::BytecodeElement;
use crate::lower::lower;
use crate::lower::lower_elem;
use crate::lower::lower_elems;
use crate::vm::MachineState;
use crate::vm::bytes_available;
use crate::vm::can_fetch;
use crate::vm::can_step;
use crate::vm::first_valid;
use crate::vm::init_state;
use crate::vm::input_stuck;
use crate::vm::run;
use crate::vm::step;
use crate::vm::wrap_byte;
use crate::vm::wrap_pointer;

verus! {

/// Every statement un-parses to at least one token.
proof fn lemma_flat_elem_len(e: ParseElement)
    ensures
        flat_elem(e).len() >= 1,
{
    match e {
        ParseElement::Increment => {},
        ParseElement::Decrement => {},
        ParseElement::MoveUp => {},
        ParseElement::MoveDown => {},
        ParseElement::Print => {},
        ParseElement::Read => {},
        ParseElement::Block(body) => {},
    }
}

/// A statement sequence un-parses to at least one token per statement.
proof fn lemma_flat_elems_len(es: Seq<ParseElement>, i: int)
    requires
        0 <= i <= es.len(),
    ensures
        flat_elems(es, i).len() >= i,
    decreases i,
{
    if i > 0 {
        lemma_flat_elems_len(es, i - 1);
        lemma_flat_elem_len(es[i - 1]);
    }
}

/// A source with no operator characters lexes to no tokens.
proof fn lemma_tokenize_noop(s: Seq<char>)
    requires
        forall|k: int| 0 <= k < s.len() ==> token_of(#[trigger] s[k]) is None,
    ensures
        spec_tokenize(s) == Seq::<Token>::empty(),
    decreases s.len(),
{
    if s.len() > 0 {
        assert(token_of(s[s.len() - 1]) is None);
        lemma_tokenize_noop(s.drop_last());
        assert(spec_tokenize(s) =~= Seq::<Token>::empty());
    }
}

/// Law: a source of only non-operator characters produces an empty
/// instruction sequence and halts immediately with no output.  In
/// detail: such a source lexes to no tokens; any tree that un-parses
/// to no tokens is empty; the empty tree lowers to empty bytecode; and
/// on empty bytecode every run, under any fuel and any input, is the
/// initial state itself, already past the end of the code, with
/// nothing written.
pub proof fn lemma_noop_source(s: Seq<char>, tree: Seq<ParseElement>, lines: Seq<Seq<u8>>, n: nat)
    requires
        forall|k: int| 0 <= k < s.len() ==> token_of(#[trigger] s[k]) is None,
        flat(tree) == spec_tokenize(s),
    ensures
        spec_tokenize(s) == Seq::<Token>::empty(),
        tree == Seq::<ParseElement>::empty(),
        lower(tree) == Seq::<BytecodeElement>::empty(),
        run(lower(tree), init_state(lines), n) == init_state(lines),
        !can_fetch(lower(tree), run(lower(tree), init_state(lines), n)),
        run(lower(tree), init_state(lines), n).output == Seq::<u8>::empty(),
{
    lemma_tokenize_noop(s);
    lemma_flat_elems_len(tree, tree.len() as int);
    assert(tree =~= Seq::<ParseElement>::empty());
    assert(lower(tree) =~= Seq::<BytecodeElement>::empty());
    assert(run(lower(tree), init_state(lines), n) == init_state(lines));
}

/// The machine state as the tree-walking reference interpreter sees
/// it: everything but the program counter, which structured execution
/// has no use for.
#[verifier::ext_equal]
pub struct TreeState {
    pub tape: Seq<u8>,
    pub pointer: int,
    pub queue: Seq<u8>,
    pub lines: Seq<Seq<u8>>,
    pub output: Seq<u8>,
}

/// How a structured execution ends: it runs its statements to the end,
/// stands at a read that cannot be served, or runs out of fuel while
/// a loop is still going.
pub enum TreeOutcome {
    Done(TreeState),
    Stuck(TreeState),
    Out,
}

/// Forgets the program counter.
pub open spec fn strip(s: MachineState) -> TreeState {
    TreeState { tape: s.tape, pointer: s.pointer, queue: s.queue, lines: s.lines, output: s.output }
}

/// Puts a program counter back.
pub open spec fn with_pc(t: TreeState, pc: int) -> MachineState {
    MachineState {
        tape: t.tape,
        pointer: t.pointer,
        pc: pc,
        queue: t.queue,
        lines: t.lines,
        output: t.output,
    }
}

/// Reference tree-walking interpretation of one statement: the direct
/// structured meaning of the tree, with no bytecode and no jumps.  A
/// `Block` runs its body repeatedly while the current cell is nonzero,
/// spending one unit of fuel per repetition.
pub open spec fn tree_run_elem(e: ParseElement, t: TreeState, fuel: nat) -> TreeOutcome
    decreases fuel, e, 0int,
{
    match e {
        ParseElement::Increment => TreeOutcome::Done(
            TreeState { tape: t.tape.update(t.pointer, wrap_byte(t.tape[t.pointer] + 1) as u8), ..t },
        ),
        ParseElement::Decrement => TreeOutcome::Done(
            TreeState { tape: t.tape.update(t.pointer, wrap_byte(t.tape[t.pointer] - 1) as u8), ..t },
        ),
        ParseElement::MoveUp => TreeOutcome::Done(
            TreeState { pointer: wrap_pointer(t.pointer + 1), ..t },
        ),
        ParseElement::MoveDown => TreeOutcome::Done(
            TreeState { pointer: wrap_pointer(t.pointer - 1), ..t },
        ),
        ParseElement::Print => TreeOutcome::Done(
            TreeState { output: t.output.push(t.tape[t.pointer]), ..t },
        ),
        ParseElement::Read => {
            if bytes_available(t.queue, t.lines) {
                if t.queue.len() > 0 {
                    TreeOutcome::Done(
                        TreeState {
                            tape: t.tape.update(t.pointer, t.queue[0]),
                            queue: t.queue.drop_first(),
                            ..t
                        },
                    )
                } else {
                    let j = first_valid(t.lines);
                    let line = t.lines[j];
                    TreeOutcome::Done(
                        TreeState {
                            tape: t.tape.update(t.pointer, line[0]),
                            queue: line.drop_first(),
                            lines: t.lines.remove(j),
                            ..t
                        },
                    )
                }
            } else {
                TreeOutcome::Stuck(t)
            }
        },
        ParseElement::Block(body) => {
            if t.tape[t.pointer] == 0 {
                TreeOutcome::Done(t)
            } else if fuel == 0 {
                TreeOutcome::Out
            } else {
                match tree_run_elems(body@, 0, t, fuel) {
                    TreeOutcome::Done(t1) => tree_run_elem(e, t1, (fuel - 1) as nat),
                    other => other,
                }
            }
        },
    }
}

/// Reference tree-walking interpretation of the statements from `i`
/// on, in order.
pub open spec fn tree_run_elems(es: Seq<ParseElement>, i: int, t: TreeState, fuel: nat) -> TreeOutcome
    decreases fuel, es, es.len() - i,
{
    if i < 0 || i >= es.len() {
        TreeOutcome::Done(t)
    } else {
        match tree_run_elem(es[i], t, fuel) {
            TreeOutcome::Done(t1) => tree_run_elems(es, i + 1, t1, fuel),
            other => other,
        }
    }
}

/// Running `m + n` steps is running `m`, then `n` more.
pub proof fn lemma_run_add(code: Seq<BytecodeElement>, s: MachineState, m: nat, n: nat)
    ensures
        run(code, s, m + n) == run(code, run(code, s, m), n),
    decreases m,
{
    if m == 0 {
        assert(run(code, s, 0) == s);
    } else if crate::vm::can_step(code, s) {
        lemma_run_add(code, step(code, s), (m - 1) as nat, n);
        assert(run(code, s, m + n) == run(code, step(code, s), (m - 1) as nat + n));
        assert(run(code, s, m) == run(code, step(code, s), (m - 1) as nat));
    } else {
        assert(run(code, s, m + n) == s);
        assert(run(code, s, m) == s);
        assert(run(code, run(code, s, m), n) == s);
    }
}

/// One step of `run`, from a state that can step.
proof fn lemma_run_one(code: Seq<BytecodeElement>, s: MachineState)
    requires
        can_step(code, s),
    ensures
        run(code, s, 1) == step(code, s),
{
    crate::vm::lemma_run_step(code, s, 0);
    assert(run(code, s, 0) == s);
}

/// Flat execution simulates the tree-walking interpretation of one
/// statement whose bytecode stands at the program counter: where the
/// statement runs to completion, some number of flat steps reaches the
/// same state one past that bytecode; where it stands at an unservable
/// read, the flat machine reaches the same state, stuck the same way.
proof fn sim_elem(code: Seq<BytecodeElement>, e: ParseElement, s: MachineState, fuel: nat)
    requires
        0 <= s.pc,
        s.pc + lower_elem(e, s.pc).len() <= code.len(),
        code.len() <= usize::MAX,
        code.subrange(s.pc, s.pc + lower_elem(e, s.pc).len() as int) == lower_elem(e, s.pc),
    ensures
        match tree_run_elem(e, strip(s), fuel) {
            TreeOutcome::Done(t1) => exists|n: nat|
                run(code, s, n) == with_pc(t1, s.pc + lower_elem(e, s.pc).len()),
            TreeOutcome::Stuck(t1) => exists|n: nat|
                #![trigger run(code, s, n)]
                {
                    let f = run(code, s, n);
                    input_stuck(code, f) && strip(f) == t1
                },
            TreeOutcome::Out => true,
        },
    decreases fuel, e, 0int,
{
    let b = s.pc;
    let c = lower_elem(e, b);
    let t = strip(s);
    match e {
        ParseElement::Block(body) => {
            let inner = lower_elems(body@, 0, b + 1);
            let k = inner.len() as int;
            assert(c.len() == k + 2);
            assert(code[b] == code.subrange(b, b + c.len() as int)[0]);
            assert(code[b] == BytecodeElement::PositiveJump((b + k + 2) as usize));
            assert(code[b + k + 1] == code.subrange(b, b + c.len() as int)[k + 1]);
            assert(code[b + k + 1] == BytecodeElement::NegativeJump(b as usize));
            assert(code.subrange(b + 1, b + 1 + k) =~= inner) by {
                assert forall|j: int| 0 <= j < k implies code.subrange(b + 1, b + 1 + k)[j]
                    == inner[j] by {
                    assert(code.subrange(b + 1, b + 1 + k)[j] == code[b + 1 + j]);
                    assert(code[b + 1 + j] == code.subrange(b, b + c.len() as int)[1 + j]);
                    assert(c[1 + j] == inner[j]);
                }
            }
            assert(can_step(code, s));
            if s.tape[s.pointer] == 0 {
                lemma_run_one(code, s);
                assert(step(code, s) =~= with_pc(t, b + c.len() as int));
            } else if fuel == 0 {
            } else {
                let sa = step(code, s);
                lemma_run_one(code, s);
                assert(run(code, s, 1) == sa);
                assert(sa =~= with_pc(t, b + 1));
                assert(strip(sa) =~= t);
                sim_elems(code, body@, 0, sa, fuel);
                match tree_run_elems(body@, 0, t, fuel) {
                    TreeOutcome::Done(t1) => {
                        let n1 = choose|n: nat| run(code, sa, n) == with_pc(t1, b + 1 + k);
                        let sb = with_pc(t1, b + 1 + k);
                        lemma_run_add(code, s, 1, n1);
                        assert(run(code, s, 1 + n1) == sb);
                        let sc = step(code, sb);
                        assert(can_step(code, sb));
                        lemma_run_one(code, sb);
                        assert(run(code, sb, 1) == sc);
                        lemma_run_add(code, s, 1 + n1, 1);
                        assert(run(code, s, 1 + n1 + 1) == sc);
                        if t1.tape[t1.pointer] == 0 {
                            assert(sc =~= with_pc(t1, b + c.len() as int));
                            assert(tree_run_elem(e, t1, (fuel - 1) as nat)
                                == TreeOutcome::Done(t1));
                        } else {
                            assert(sc =~= with_pc(t1, b));
                            assert(strip(sc) =~= t1);
                            sim_elem(code, e, sc, (fuel - 1) as nat);
                            match tree_run_elem(e, t1, (fuel - 1) as nat) {
                                TreeOutcome::Done(t2) => {
                                    let n3 = choose|n: nat|
                                        run(code, sc, n) == with_pc(t2, b + c.len() as int);
                                    lemma_run_add(code, s, 1 + n1 + 1, n3);
                                    assert(run(code, s, 1 + n1 + 1 + n3) == with_pc(
                                        t2,
                                        b + c.len() as int,
                                    ));
                                },
                                TreeOutcome::Stuck(t2) => {
                                    let n3 = choose|n: nat|
                                        #![trigger run(code, sc, n)]
                                        {
                                            let f = run(code, sc, n);
                                            input_stuck(code, f) && strip(f) == t2
                                        };
                                    lemma_run_add(code, s, 1 + n1 + 1, n3);
                                    assert({
                                        let f = run(code, s, 1 + n1 + 1 + n3);
                                        input_stuck(code, f) && strip(f) == t2
                                    });
                                },
                                TreeOutcome::Out => {},
                            }
                        }
                    },
                    TreeOutcome::Stuck(t1) => {
                        let n1 = choose|n: nat|
                            #![trigger run(code, sa, n)]
                            {
                                let f = run(code, sa, n);
                                input_stuck(code, f) && strip(f) == t1
                            };
                        lemma_run_add(code, s, 1, n1);
                        assert({
                            let f = run(code, s, 1 + n1);
                            input_stuck(code, f) && strip(f) == t1
                        });
                    },
                    TreeOutcome::Out => {},
                }
            }
        },
        ParseElement::Read => {
            assert(code[b] == code.subrange(b, b + c.len() as int)[0]);
            assert(code[b] == BytecodeElement::Read);
            if bytes_available(s.queue, s.lines) {
                assert(can_step(code, s));
                lemma_run_one(code, s);
                match tree_run_elem(e, t, fuel) {
                    TreeOutcome::Done(t1) => {
                        assert(step(code, s) =~= with_pc(t1, b + 1));
                    },
                    _ => {
                        assert(false);
                    },
                }
            } else {
                assert(run(code, s, 0) == s);
                assert(input_stuck(code, s));
                assert(strip(s) =~= t);
            }
        },
        ParseElement::Increment => {
            assert(code[b] == code.subrange(b, b + c.len() as int)[0]);
            assert(code[b] == BytecodeElement::ChangeValue(1));
            assert(can_step(code, s));
            lemma_run_one(code, s);
            match tree_run_elem(e, t, fuel) {
                TreeOutcome::Done(t1) => {
                    assert(step(code, s) =~= with_pc(t1, b + 1));
                },
                _ => {
                    assert(false);
                },
            }
        },
        ParseElement::Decrement => {
            assert(code[b] == code.subrange(b, b + c.len() as int)[0]);
            assert(code[b] == BytecodeElement::ChangeValue(-1i32));
            assert(can_step(code, s));
            lemma_run_one(code, s);
            match tree_run_elem(e, t, fuel) {
                TreeOutcome::Done(t1) => {
                    assert(step(code, s) =~= with_pc(t1, b + 1));
                },
                _ => {
                    assert(false);
                },
            }
        },
        ParseElement::MoveUp => {
            assert(code[b] == code.subrange(b, b + c.len() as int)[0]);
            assert(code[b] == BytecodeElement::MovePointer(1));
            assert(can_step(code, s));
            lemma_run_one(code, s);
            match tree_run_elem(e, t, fuel) {
                TreeOutcome::Done(t1) => {
                    assert(step(code, s) =~= with_pc(t1, b + 1));
                },
                _ => {
                    assert(false);
                },
            }
        },
        ParseElement::MoveDown => {
            assert(code[b] == code.subrange(b, b + c.len() as int)[0]);
            assert(code[b] == BytecodeElement::MovePointer(-1i32));
            assert(can_step(code, s));
            lemma_run_one(code, s);
            match tree_run_elem(e, t, fuel) {
                TreeOutcome::Done(t1) => {
                    assert(step(code, s) =~= with_pc(t1, b + 1));
                },
                _ => {
                    assert(false);
                },
            }
        },
        ParseElement::Print => {
            assert(code[b] == code.subrange(b, b + c.len() as int)[0]);
            assert(code[b] == BytecodeElement::Print);
            assert(can_step(code, s));
            lemma_run_one(code, s);
            match tree_run_elem(e, t, fuel) {
                TreeOutcome::Done(t1) => {
                    assert(step(code, s) =~= with_pc(t1, b + 1));
                },
                _ => {
                    assert(false);
                },
            }
        },
    }
}

/// Flat execution simulates the tree-walking interpretation of the
/// statements from `i` on, whose bytecode stands at the program
/// counter.
proof fn sim_elems(code: Seq<BytecodeElement>, es: Seq<ParseElement>, i: int, s: MachineState, fuel: nat)
    requires
        0 <= i <= es.len(),
        0 <= s.pc,
        s.pc + lower_elems(es, i, s.pc).len() <= code.len(),
        code.len() <= usize::MAX,
        code.subrange(s.pc, s.pc + lower_elems(es, i, s.pc).len() as int) == lower_elems(
            es,
            i,
            s.pc,
        ),
    ensures
        match tree_run_elems(es, i, strip(s), fuel) {
            TreeOutcome::Done(t1) => exists|n: nat|
                run(code, s, n) == with_pc(t1, s.pc + lower_elems(es, i, s.pc).len()),
            TreeOutcome::Stuck(t1) => exists|n: nat|
                #![trigger run(code, s, n)]
                {
                    let f = run(code, s, n);
                    input_stuck(code, f) && strip(f) == t1
                },
            TreeOutcome::Out => true,
        },
    decreases fuel, es, es.len() - i,
{
    let b = s.pc;
    let whole = lower_elems(es, i, b);
    if i >= es.len() {
        assert(run(code, s, 0) == s);
        assert(with_pc(strip(s), b + whole.len()) =~= s);
    } else {
        let first = lower_elem(es[i], b);
        let fl = first.len() as int;
        let rest = lower_elems(es, i + 1, b + fl);
        assert(whole == first + rest);
        assert(code.subrange(b, b + fl) =~= first) by {
            assert forall|j: int| 0 <= j < fl implies code.subrange(b, b + fl)[j] == first[j] by {
                assert(code.subrange(b, b + fl)[j] == code[b + j]);
                assert(code[b + j] == code.subrange(b, b + whole.len() as int)[j]);
                assert(whole[j] == first[j]);
            }
        }
        sim_elem(code, es[i], s, fuel);
        match tree_run_elem(es[i], strip(s), fuel) {
            TreeOutcome::Done(t1) => {
                let n1 = choose|n: nat| run(code, s, n) == with_pc(t1, b + fl);
                let s1 = with_pc(t1, b + fl);
                assert(strip(s1) =~= t1);
                assert(code.subrange(b + fl, b + fl + rest.len() as int) =~= rest) by {
                    assert forall|j: int| 0 <= j < rest.len() implies code.subrange(
                        b + fl,
                        b + fl + rest.len() as int,
                    )[j] == rest[j] by {
                        assert(code.subrange(b + fl, b + fl + rest.len() as int)[j] == code[b + fl
                            + j]);
                        assert(code[b + fl + j] == code.subrange(b, b + whole.len() as int)[fl + j]);
                        assert(whole[fl + j] == rest[j]);
                    }
                }
                sim_elems(code, es, i + 1, s1, fuel);
                match tree_run_elems(es, i + 1, t1, fuel) {
                    TreeOutcome::Done(t2) => {
                        let n2 = choose|n: nat|
                            run(code, s1, n) == with_pc(t2, b + fl + rest.len());
                        lemma_run_add(code, s, n1, n2);
                        assert(run(code, s, n1 + n2) == with_pc(t2, b + whole.len()));
                    },
                    TreeOutcome::Stuck(t2) => {
                        let n2 = choose|n: nat|
                            #![trigger run(code, s1, n)]
                            {
                                let f = run(code, s1, n);
                                input_stuck(code, f) && strip(f) == t2
                            };
                        lemma_run_add(code, s, n1, n2);
                        assert({
                            let f = run(code, s, n1 + n2);
                            input_stuck(code, f) && strip(f) == t2
                        });
                    },
                    TreeOutcome::Out => {},
                }
            },
            TreeOutcome::Stuck(t1) => {},
            TreeOutcome::Out => {},
        }
    }
}

/// Law: round-trip lowering.  For every statement tree, the lowered
/// bytecode, run by the flat machine, does exactly what the reference
/// tree-walking interpretation of the tree does, from any input and
/// for all reachable states: where the tree interpretation finishes,
/// some number of flat steps ends one past the code in the identical
/// state — same tape, pointer, queue, remaining lines, and
/// byte-identical output; where it stands at an unservable read, the
/// flat machine reaches the identical state, stuck the same way.  The
/// bound on the code length is a machine limit: any bytecode held in
/// memory satisfies it.
pub proof fn lemma_round_trip_lowering(tree: Seq<ParseElement>, lines: Seq<Seq<u8>>, fuel: nat)
    requires
        lower(tree).len() <= usize::MAX,
    ensures
        match tree_run_elems(tree, 0, strip(init_state(lines)), fuel) {
            TreeOutcome::Done(t) => exists|n: nat|
                run(lower(tree), init_state(lines), n) == with_pc(t, lower(tree).len() as int),
            TreeOutcome::Stuck(t) => exists|n: nat|
                #![trigger run(lower(tree), init_state(lines), n)]
                {
                    let f = run(lower(tree), init_state(lines), n);
                    input_stuck(lower(tree), f) && strip(f) == t
                },
            TreeOutcome::Out => true,
        },
{
    let code = lower(tree);
    let s = init_state(lines);
    assert(code.subrange(0, code.len() as int) =~= code);
    sim_elems(code, tree, 0, s, fuel);
}

} // verus!
