//! Lowering pass: flattens the statement tree into one linear bytecode
//! sequence with resolved jump targets.  Each `Block` becomes a
//! conditional-jump pair bracketing its lowered body: a `PositiveJump`
//! (taken when the current cell is zero) whose target is one past the
//! matching `NegativeJump`, and a `NegativeJump` (taken when the
//! current cell is nonzero) whose target is the `PositiveJump` itself,
//! so that re-entering the loop re-evaluates the guard.
//!
//! The pass emits a placeholder `PositiveJump` when it enters a block
//! and patches its target after the body and the closing `NegativeJump`
//! are in place, so every target is written down once, after the fact.

use vstd::prelude::*;
use crate::parser::ParseElement;

verus! {

/// One bytecode instruction; jump targets are absolute indices into
/// the instruction sequence the instruction itself stands in.
#[derive(Clone, Copy, Debug, PartialEq, Eq, Structural)]
pub enum BytecodeElement {
    ChangeValue(i32),
    MovePointer(i32),
    Print,
    Read,
    PositiveJump(usize),
    NegativeJump(usize),
}

/// The lowering pass only ever emits single-step deltas.
pub open spec fn delta_ok(c: BytecodeElement) -> bool {
    match c {
        BytecodeElement::ChangeValue(d) => -1 <= d <= 1,
        BytecodeElement::MovePointer(d) => -1 <= d <= 1,
        _ => true,
    }
}

/// Every value or pointer change in the code moves by at most one.
pub open spec fn code_ok(code: Seq<BytecodeElement>) -> bool {
    forall|p: int| 0 <= p < code.len() ==> delta_ok(#[trigger] code[p])
}

/// The bytecode of one statement, given the absolute position `base`
/// at which that bytecode will stand.  A `Block` lowers to a
/// `PositiveJump` over the lowered body and the closing `NegativeJump`,
/// which in turn targets the `PositiveJump`.
pub open spec fn lower_elem(e: ParseElement, base: int) -> Seq<BytecodeElement>
    decreases e,
{
    match e {
        ParseElement::Increment => seq![BytecodeElement::ChangeValue(1)],
        ParseElement::Decrement => seq![BytecodeElement::ChangeValue(-1i32)],
        ParseElement::MoveUp => seq![BytecodeElement::MovePointer(1)],
        ParseElement::MoveDown => seq![BytecodeElement::MovePointer(-1i32)],
        ParseElement::Print => seq![BytecodeElement::Print],
        ParseElement::Read => seq![BytecodeElement::Read],
        ParseElement::Block(body) => {
            let lowered = lower_elems(body@, 0, base + 1);
            seq![BytecodeElement::PositiveJump((base + 1 + lowered.len() + 1) as usize)] + lowered
                + seq![BytecodeElement::NegativeJump(base as usize)]
        },
    }
}

/// The bytecode of the statements from `i` on, when the bytecode of
/// everything before them ends at absolute position `base`.
pub open spec fn lower_elems(es: Seq<ParseElement>, i: int, base: int) -> Seq<BytecodeElement>
    decreases es, es.len() - i,
{
    if i < 0 || i >= es.len() {
        Seq::empty()
    } else {
        let first = lower_elem(es[i], base);
        first + lower_elems(es, i + 1, base + first.len())
    }
}

/// The bytecode of a whole statement tree.
pub open spec fn lower(tree: Seq<ParseElement>) -> Seq<BytecodeElement> {
    lower_elems(tree, 0, 0)
}

/// Jump-pair well-formedness of a bytecode chunk standing at absolute
/// offset `off`: every `PositiveJump` targets one past a matching
/// `NegativeJump` further right in the same chunk, which targets the
/// `PositiveJump`'s own position; and every `NegativeJump` targets a
/// matching `PositiveJump` further left in the same chunk, whose
/// target is one past the `NegativeJump`'s own position.
pub open spec fn jumps_wf_at(c: Seq<BytecodeElement>, off: int) -> bool {
    &&& forall|p: int|
        0 <= p < c.len() && (#[trigger] c[p]) is PositiveJump ==> {
            let t = c[p]->PositiveJump_0 as int;
            &&& off + p + 2 <= t <= off + c.len()
            &&& c[t - 1 - off] == BytecodeElement::NegativeJump((off + p) as usize)
        }
    &&& forall|p: int|
        0 <= p < c.len() && (#[trigger] c[p]) is NegativeJump ==> {
            let u = c[p]->NegativeJump_0 as int;
            &&& off <= u < off + p
            &&& c[u - off] == BytecodeElement::PositiveJump((off + p + 1) as usize)
        }
}

/// Jump-pair well-formedness of a whole program.
pub open spec fn jump_pairs_wf(code: Seq<BytecodeElement>) -> bool {
    jumps_wf_at(code, 0)
}

/// Two well-formed chunks standing side by side form a well-formed
/// chunk: each pair stays within the chunk that holds it.
proof fn lemma_jumps_wf_concat(c1: Seq<BytecodeElement>, c2: Seq<BytecodeElement>, off: int)
    requires
        jumps_wf_at(c1, off),
        jumps_wf_at(c2, off + c1.len()),
    ensures
        jumps_wf_at(c1 + c2, off),
{
    let c = c1 + c2;
    let n1 = c1.len() as int;
    assert forall|p: int| 0 <= p < c.len() && (#[trigger] c[p]) is PositiveJump implies {
        let t = c[p]->PositiveJump_0 as int;
        &&& off + p + 2 <= t <= off + c.len()
        &&& c[t - 1 - off] == BytecodeElement::NegativeJump((off + p) as usize)
    } by {
        if p < n1 {
            assert(c[p] == c1[p]);
            let t = c1[p]->PositiveJump_0 as int;
            assert(c[t - 1 - off] == c1[t - 1 - off]);
        } else {
            assert(c[p] == c2[p - n1]);
            let t = c2[p - n1]->PositiveJump_0 as int;
            assert(c[t - 1 - off] == c2[t - 1 - off - n1]);
        }
    }
    assert forall|p: int| 0 <= p < c.len() && (#[trigger] c[p]) is NegativeJump implies {
        let u = c[p]->NegativeJump_0 as int;
        &&& off <= u < off + p
        &&& c[u - off] == BytecodeElement::PositiveJump((off + p + 1) as usize)
    } by {
        if p < n1 {
            assert(c[p] == c1[p]);
            let u = c1[p]->NegativeJump_0 as int;
            assert(c[u - off] == c1[u - off]);
        } else {
            assert(c[p] == c2[p - n1]);
            let u = c2[p - n1]->NegativeJump_0 as int;
            assert(c[u - off] == c2[u - off - n1]);
        }
    }
}

/// The bytecode of one statement is jump-pair well formed and moves
/// values and the pointer by at most one step.
pub proof fn lemma_lower_elem_wf(e: ParseElement, base: int)
    requires
        0 <= base,
        base + lower_elem(e, base).len() <= usize::MAX,
    ensures
        jumps_wf_at(lower_elem(e, base), base),
        code_ok(lower_elem(e, base)),
    decreases e, 0int,
{
    match e {
        ParseElement::Block(body) => {
            let inner = lower_elems(body@, 0, base + 1);
            let k = inner.len() as int;
            lemma_lower_elems_wf(body@, 0, base + 1);
            let c = lower_elem(e, base);
            assert(c.len() == k + 2);
            assert forall|p: int| 0 <= p < c.len() && (#[trigger] c[p]) is PositiveJump implies {
                let t = c[p]->PositiveJump_0 as int;
                &&& base + p + 2 <= t <= base + c.len()
                &&& c[t - 1 - base] == BytecodeElement::NegativeJump((base + p) as usize)
            } by {
                if p == 0 {
                    assert(c[p]->PositiveJump_0 as int == base + k + 2);
                    assert(c[k + 1] == BytecodeElement::NegativeJump(base as usize));
                } else {
                    assert(p <= k);
                    assert(c[p] == inner[p - 1]);
                    let t = inner[p - 1]->PositiveJump_0 as int;
                    assert(c[t - 1 - base] == inner[t - 1 - base - 1]);
                }
            }
            assert forall|p: int| 0 <= p < c.len() && (#[trigger] c[p]) is NegativeJump implies {
                let u = c[p]->NegativeJump_0 as int;
                &&& base <= u < base + p
                &&& c[u - base] == BytecodeElement::PositiveJump((base + p + 1) as usize)
            } by {
                if p == k + 1 {
                    assert(c[p]->NegativeJump_0 as int == base);
                    assert(c[0] == BytecodeElement::PositiveJump((base + k + 2) as usize));
                } else {
                    assert(1 <= p <= k);
                    assert(c[p] == inner[p - 1]);
                    let u = inner[p - 1]->NegativeJump_0 as int;
                    assert(c[u - base] == inner[u - base - 1]);
                }
            }
            assert forall|p: int| 0 <= p < c.len() implies delta_ok(#[trigger] c[p]) by {
                if 1 <= p <= k {
                    assert(c[p] == inner[p - 1]);
                }
            }
        },
        _ => {},
    }
}

/// The bytecode of a statement suffix is jump-pair well formed and
/// moves values and the pointer by at most one step.
pub proof fn lemma_lower_elems_wf(es: Seq<ParseElement>, i: int, base: int)
    requires
        0 <= base,
        base + lower_elems(es, i, base).len() <= usize::MAX,
    ensures
        jumps_wf_at(lower_elems(es, i, base), base),
        code_ok(lower_elems(es, i, base)),
    decreases es, es.len() - i,
{
    if 0 <= i < es.len() {
        let first = lower_elem(es[i], base);
        let rest = lower_elems(es, i + 1, base + first.len());
        lemma_lower_elem_wf(es[i], base);
        lemma_lower_elems_wf(es, i + 1, base + first.len());
        lemma_jumps_wf_concat(first, rest, base);
        assert forall|p: int|
            0 <= p < lower_elems(es, i, base).len() implies delta_ok(
            #[trigger] lower_elems(es, i, base)[p],
        ) by {
            if p < first.len() {
                assert(lower_elems(es, i, base)[p] == first[p]);
            } else {
                assert(lower_elems(es, i, base)[p] == rest[p - first.len()]);
            }
        }
    }
}

/// Law: the bytecode of every statement tree is jump-pair well formed —
/// every `PositiveJump` targets one past its uniquely matching
/// `NegativeJump`, and that `NegativeJump` targets the `PositiveJump`'s
/// own index.  The bound on the length is a machine limit: any
/// bytecode sequence held in memory satisfies it.
pub proof fn lemma_jump_pairs_well_formed(tree: Seq<ParseElement>)
    requires
        lower(tree).len() <= usize::MAX,
    ensures
        jump_pairs_wf(lower(tree)),
        code_ok(lower(tree)),
{
    lemma_lower_elems_wf(tree, 0, 0);
}

/// Lowers one statement, appending its bytecode to `bytecode`.  For a
/// `Block`, a placeholder `PositiveJump` is pushed on entering, the
/// body is lowered, the closing `NegativeJump` is appended, and the
/// placeholder's target is then patched to one past the end.
#[verifier::loop_isolation(false)]
pub fn walk_subtree(element: &ParseElement, bytecode: Vec<BytecodeElement>) -> (r: Vec<
    BytecodeElement,
>)
    ensures
        r@ == bytecode@ + lower_elem(*element, bytecode@.len() as int),
    decreases element,
{
    let mut bytecode = bytecode;
    let ghost orig = bytecode@;
    let ghost base = bytecode@.len() as int;
    match element {
        ParseElement::Increment => {
            bytecode.push(BytecodeElement::ChangeValue(1));
            proof {
                assert(bytecode@ =~= orig + lower_elem(*element, base));
            }
        },
        ParseElement::Decrement => {
            bytecode.push(BytecodeElement::ChangeValue(-1));
            proof {
                assert(bytecode@ =~= orig + lower_elem(*element, base));
            }
        },
        ParseElement::MoveUp => {
            bytecode.push(BytecodeElement::MovePointer(1));
            proof {
                assert(bytecode@ =~= orig + lower_elem(*element, base));
            }
        },
        ParseElement::MoveDown => {
            bytecode.push(BytecodeElement::MovePointer(-1));
            proof {
                assert(bytecode@ =~= orig + lower_elem(*element, base));
            }
        },
        ParseElement::Print => {
            bytecode.push(BytecodeElement::Print);
            proof {
                assert(bytecode@ =~= orig + lower_elem(*element, base));
            }
        },
        ParseElement::Read => {
            bytecode.push(BytecodeElement::Read);
            proof {
                assert(bytecode@ =~= orig + lower_elem(*element, base));
            }
        },
        ParseElement::Block(children) => {
            let block_start = bytecode.len();
            bytecode.push(BytecodeElement::PositiveJump(0));
            let n = children.len();
            let mut i: usize = 0;
            while i < n
                invariant
                    i <= n,
                    n == children@.len(),
                    bytecode@.len() >= base + 1,
                    bytecode@.take(base + 1) == orig.push(BytecodeElement::PositiveJump(0)),
                    lower_elems(children@, 0, base + 1) == bytecode@.subrange(
                        base + 1,
                        bytecode@.len() as int,
                    ) + lower_elems(children@, i as int, bytecode@.len() as int),
                decreases n - i,
            {
                let ghost before = bytecode@;
                bytecode = walk_subtree(&children[i], bytecode);
                proof {
                    let piece = lower_elem(children@[i as int], before.len() as int);
                    assert(bytecode@.take(base + 1) =~= before.take(base + 1));
                    assert(bytecode@.subrange(base + 1, bytecode@.len() as int) =~= before.subrange(
                        base + 1,
                        before.len() as int,
                    ) + piece);
                    assert(before.subrange(base + 1, before.len() as int) + (piece + lower_elems(
                        children@,
                        i + 1,
                        bytecode@.len() as int,
                    )) =~= bytecode@.subrange(base + 1, bytecode@.len() as int) + lower_elems(
                        children@,
                        i + 1,
                        bytecode@.len() as int,
                    ));
                }
                i = i + 1;
            }
            let ghost body = lower_elems(children@, 0, base + 1);
            proof {
                assert(bytecode@.subrange(base + 1, bytecode@.len() as int) + lower_elems(
                    children@,
                    n as int,
                    bytecode@.len() as int,
                ) =~= bytecode@.subrange(base + 1, bytecode@.len() as int));
                assert(bytecode@ =~= bytecode@.take(base + 1) + bytecode@.subrange(
                    base + 1,
                    bytecode@.len() as int,
                ));
                assert(bytecode@ == orig.push(BytecodeElement::PositiveJump(0)) + body);
            }
            bytecode.push(BytecodeElement::NegativeJump(block_start));
            let end = bytecode.len();
            bytecode[block_start] = BytecodeElement::PositiveJump(end);
            proof {
                assert(end == base + 1 + body.len() + 1);
                assert(bytecode@ =~= orig + (seq![
                    BytecodeElement::PositiveJump((base + 1 + body.len() + 1) as usize),
                ] + body + seq![BytecodeElement::NegativeJump(base as usize)]));
            }
        },
    }
    bytecode
}

/// Lowers the whole statement tree to its bytecode.  The result is
/// exactly the specification-level lowering, its jump pairs are well
/// formed, and every delta it holds is a single step.
pub fn tree_walker(tree: Vec<ParseElement>) -> (r: Vec<BytecodeElement>)
    ensures
        r@ == lower(tree@),
        jump_pairs_wf(r@),
        code_ok(r@),
{
    let mut bytecode: Vec<BytecodeElement> = Vec::new();
    let n = tree.len();
    let mut i: usize = 0;
    while i < n
        invariant
            i <= n,
            n == tree@.len(),
            lower(tree@) == bytecode@ + lower_elems(tree@, i as int, bytecode@.len() as int),
        decreases n - i,
    {
        let ghost before = bytecode@;
        bytecode = walk_subtree(&tree[i], bytecode);
        proof {
            let piece = lower_elem(tree@[i as int], before.len() as int);
            assert(before + (piece + lower_elems(tree@, i + 1, bytecode@.len() as int)) =~= bytecode@
                + lower_elems(tree@, i + 1, bytecode@.len() as int));
        }
        i = i + 1;
    }
    let total = bytecode.len();
    proof {
        assert(bytecode@ + lower_elems(tree@, n as int, bytecode@.len() as int) =~= bytecode@);
        assert(lower(tree@).len() == total);
        lemma_jump_pairs_well_formed(tree@);
    }
    bytecode
}

} // verus!
