use vstd::prelude::*;

verus! {

/// One instruction of a compiled pattern.
#[derive(Debug, PartialEq, Eq, Clone, Copy)]
pub enum Op {
    /// Matches any single codepoint (compiled from the `.` wildcard).
    NoOp,
    /// Matches exactly one codepoint equal to the payload.
    Cmp(char),
    /// The instruction that follows must match at least this many
    /// consecutive times (greedy, unbounded).
    AtLeast(u64),
    /// The instruction that follows may match at most this many
    /// consecutive times (greedy, capped).
    AtMost(u64),
    /// Sentinel marking successful completion of the whole sequence.
    Final,
}

/// An atom matches a single codepoint; it is the unit a quantifier governs.
pub open spec fn is_atom(op: Op) -> bool {
    op is NoOp || op is Cmp
}

/// A quantifier modifies the repetition count of the atom that follows it.
pub open spec fn is_quant(op: Op) -> bool {
    op is AtLeast || op is AtMost
}

/// Structural invariant of a compiled instruction sequence: it ends with the
/// one and only `Final`, and every quantifier is immediately followed by the
/// single atom it governs.
pub open spec fn wf_ops(ops: Seq<Op>) -> bool {
    &&& ops.len() >= 1
    &&& ops[ops.len() - 1] == Op::Final
    &&& forall|i: int| 0 <= i < ops.len() - 1 ==> ops[i] != Op::Final
    &&& forall|i: int|
        0 <= i < ops.len() && is_quant(#[trigger] ops[i]) ==> i + 1 < ops.len() && is_atom(
            ops[i + 1],
        )
}

/// A compiled pattern: an immutable, well-formed instruction sequence.
#[derive(Debug, PartialEq)]
pub struct RegExpr {
    pub ops: Vec<Op>,
}

impl View for RegExpr {
    type V = Seq<Op>;

    open spec fn view(&self) -> Seq<Op> {
        self.ops@
    }
}

/// The three pattern codepoints that act as quantifier suffixes.
pub open spec fn is_quant_char(c: char) -> bool {
    c == '*' || c == '+' || c == '?'
}

/// The quantifier instruction a quantifier codepoint compiles to.
pub open spec fn quant_op(c: char) -> Op {
    if c == '*' {
        Op::AtLeast(0)
    } else if c == '+' {
        Op::AtLeast(1)
    } else {
        Op::AtMost(1)
    }
}

/// The atom instruction a non-quantifier codepoint compiles to.
pub open spec fn atom_op(c: char) -> Op {
    if c == '.' {
        Op::NoOp
    } else {
        Op::Cmp(c)
    }
}

/// The compiler's scan from position `i` onward, with the instructions
/// emitted so far and the flag saying whether the last emitted atom may
/// legally be quantified.  A quantifier codepoint inserts its instruction
/// immediately before that atom; a quantifier with no atom to govern makes
/// the whole pattern invalid (`None`).
pub open spec fn compile_from(s: Seq<char>, i: int, ops: Seq<Op>, quantifiable: bool) -> Option<
    Seq<Op>,
>
    decreases s.len() - i,
{
    if i >= s.len() {
        Some(ops.push(Op::Final))
    } else if is_quant_char(s[i]) {
        if quantifiable {
            compile_from(s, i + 1, ops.insert(ops.len() - 1, quant_op(s[i])), false)
        } else {
            None
        }
    } else {
        compile_from(s, i + 1, ops.push(atom_op(s[i])), true)
    }
}

/// The instruction sequence a pattern text compiles to, or `None` when a
/// quantifier appears with no preceding atom to govern.
pub open spec fn spec_compile(s: Seq<char>) -> Option<Seq<Op>> {
    compile_from(s, 0, Seq::empty(), false)
}

/// Invariant of the compiler's accumulator: no `Final` yet, every quantifier
/// already governs an atom, and when the last atom may be quantified it is in
/// last position with no quantifier directly before it.
spec fn compiling_inv(ops: Seq<Op>, quantifiable: bool) -> bool {
    &&& forall|i: int| 0 <= i < ops.len() ==> ops[i] != Op::Final
    &&& forall|i: int|
        0 <= i < ops.len() && is_quant(#[trigger] ops[i]) ==> i + 1 < ops.len() && is_atom(
            ops[i + 1],
        )
    &&& quantifiable ==> ops.len() >= 1 && is_atom(ops[ops.len() - 1])
    &&& quantifiable && ops.len() >= 2 ==> !is_quant(ops[ops.len() - 2])
}

/// Appending the sentinel to a sound accumulator yields a well-formed
/// instruction sequence.
proof fn lemma_inv_push_final(ops: Seq<Op>)
    requires
        compiling_inv(ops, false),
    ensures
        wf_ops(ops.push(Op::Final)),
{
    let res = ops.push(Op::Final);
    assert forall|i: int| 0 <= i < res.len() - 1 implies res[i] != Op::Final by {
        assert(res[i] == ops[i]);
    }
    assert forall|i: int| 0 <= i < res.len() && is_quant(#[trigger] res[i]) implies i + 1
        < res.len() && is_atom(res[i + 1]) by {
        assert(i < ops.len());
        assert(res[i] == ops[i]);
        assert(res[i + 1] == ops[i + 1]);
    }
}

/// Whether a pattern codepoint is one of the three quantifier suffixes.
fn is_quantifier(token: char) -> (r: bool)
    ensures
        r == is_quant_char(token),
{
    token == '*' || token == '+' || token == '?'
}

/// Compile a pattern text into an instruction sequence.
///
/// Succeeds exactly when no quantifier appears at the start of the pattern or
/// directly after another quantifier; the result is then the well-formed
/// sequence `spec_compile` describes.  The empty pattern is legal and
/// compiles to the sentinel alone.
pub fn compile(src: &str) -> (r: Result<RegExpr, &str>)
    ensures
        r is Ok <==> spec_compile(src@) is Some,
        r matches Ok(re) ==> re@ == spec_compile(src@)->0 && wf_ops(re@),
        r matches Err(msg) ==> msg@ == "invalid quantifier position"@,
{
    let n: usize = src.unicode_len();
    let mut ops: Vec<Op> = Vec::new();
    let mut quantifiable = false;
    let mut i: usize = 0;
    while i < n
        invariant
            n == src@.len(),
            i <= n,
            compiling_inv(ops@, quantifiable),
            compile_from(src@, i as int, ops@, quantifiable) == spec_compile(src@),
        decreases n - i,
    {
        let token = src.get_char(i);
        let ghost prev = ops@;
        if is_quantifier(token) {
            if quantifiable {
                quantifiable = false;
                let q = match token {
                    '*' => Op::AtLeast(0),
                    '+' => Op::AtLeast(1),
                    _ => Op::AtMost(1),
                };
                let pos: usize = ops.len() - 1;
                ops.insert(pos, q);
                proof {
                    assert(ops@ == prev.insert(prev.len() - 1, quant_op(src@[i as int])));
                    assert forall|j: int|
                        0 <= j < ops@.len() && is_quant(#[trigger] ops@[j]) implies j + 1
                        < ops@.len() && is_atom(ops@[j + 1]) by {
                        if j < prev.len() - 1 {
                            assert(ops@[j] == prev[j]);
                            assert(ops@[j + 1] == if j + 1 < prev.len() - 1 {
                                prev[j + 1]
                            } else {
                                quant_op(src@[i as int])
                            });
                            assert(j + 1 < prev.len() - 1);
                        } else if j == prev.len() - 1 {
                            assert(ops@[j + 1] == prev[prev.len() - 1]);
                        } else {
                            assert(ops@[j] == prev[j - 1]);
                        }
                    }
                }
            } else {
                return Err("invalid quantifier position");
            }
        } else {
            quantifiable = true;
            ops.push(match token {
                '.' => Op::NoOp,
                chr => Op::Cmp(chr),
            });
            proof {
                assert(ops@ == prev.push(atom_op(src@[i as int])));
                assert forall|j: int|
                    0 <= j < ops@.len() && is_quant(#[trigger] ops@[j]) implies j + 1 < ops@.len()
                    && is_atom(ops@[j + 1]) by {
                    assert(j < prev.len());
                    assert(ops@[j] == prev[j]);
                    assert(ops@[j + 1] == prev[j + 1]);
                }
            }
        }
        i += 1;
    }
    proof {
        lemma_inv_push_final(ops@);
    }
    ops.push(Op::Final);
    Ok(RegExpr { ops })
}

/// A pattern that begins with a quantifier, or holds two consecutive
/// quantifiers, never compiles: somewhere a quantifier has no atom to govern.
pub proof fn lemma_compile_rejects_misplaced_quantifier(s: Seq<char>)
    requires
        (s.len() > 0 && is_quant_char(s[0])) || (exists|i: int|
            0 <= i < s.len() - 1 && is_quant_char(#[trigger] s[i]) && is_quant_char(s[i + 1])),
    ensures
        spec_compile(s) is None,
{
    if spec_compile(s) is Some {
        lemma_compile_from_legal(s, 0, Seq::empty(), false);
    }
}

/// When the compiler's scan succeeds from position `i`, no quantifier stands
/// where the flag forbids one, and no two quantifiers are consecutive from
/// `i` onward.
proof fn lemma_compile_from_legal(s: Seq<char>, i: int, ops: Seq<Op>, quantifiable: bool)
    requires
        0 <= i <= s.len(),
        compile_from(s, i, ops, quantifiable) is Some,
    ensures
        !quantifiable && i < s.len() ==> !is_quant_char(s[i]),
        forall|j: int|
            i <= j < s.len() - 1 && is_quant_char(#[trigger] s[j]) ==> !is_quant_char(s[j + 1]),
    decreases s.len() - i,
{
    if i < s.len() {
        if is_quant_char(s[i]) {
            lemma_compile_from_legal(s, i + 1, ops.insert(ops.len() - 1, quant_op(s[i])), false);
        } else {
            lemma_compile_from_legal(s, i + 1, ops.push(atom_op(s[i])), true);
        }
    }
}

/// Compilation is deterministic: two instruction sequences compiled from the
/// same pattern text are structurally equal, so compiling a pattern twice
/// yields equal results.
pub proof fn lemma_compile_idempotent(s: Seq<char>, r1: Seq<Op>, r2: Seq<Op>)
    requires
        spec_compile(s) == Some(r1),
        spec_compile(s) == Some(r2),
    ensures
        r1 == r2,
{
}

} // verus!
