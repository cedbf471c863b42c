use vstd::prelude::*;
use vstd::string::StrSliceExecFns;
use vstd::string::StringExecFns;

use crate::pattern::Op;
use crate::pattern::RegExpr;
use crate::pattern::is_atom;
use crate::pattern::is_quant;
use crate::pattern::wf_ops;

verus! {

/// Outcome of one attempt of the scanning engine.
enum State {
    /// A quantifier matched zero repetitions; the attempt resumes at the
    /// same text position with the instruction index advanced past the
    /// quantifier and its governed atom.
    Stay,
    /// Some instruction failed; the whole attempt from this anchor is
    /// invalid.
    Fail,
    /// The sentinel was reached; the attempt matched.
    Done,
}

/// Whether an atom instruction matches a single codepoint.
pub open spec fn atom_matches(op: Op, c: char) -> bool {
    match op {
        Op::NoOp => true,
        Op::Cmp(k) => k == c,
        _ => false,
    }
}

/// The number of consecutive codepoints from `pos` that match the atom
/// (greedy, unbounded).
pub open spec fn greedy_count(atom: Op, text: Seq<char>, pos: int) -> nat
    decreases text.len() - pos,
{
    if pos < 0 || pos >= text.len() {
        0
    } else if atom_matches(atom, text[pos]) {
        (1 + greedy_count(atom, text, pos + 1)) as nat
    } else {
        0
    }
}

/// How many repetitions a quantifier consumes: the full greedy count,
/// capped at the bound for `AtMost`.
pub open spec fn quant_count(q: Op, atom: Op, text: Seq<char>, pos: int) -> nat {
    let full = greedy_count(atom, text, pos);
    match q {
        Op::AtMost(n) => if full > n {
            n as nat
        } else {
            full
        },
        _ => full,
    }
}

/// Whether a quantifier is satisfied by the repetitions it consumed:
/// `AtLeast` demands its minimum, `AtMost` never itself fails (the cap
/// already bounds the count).
pub open spec fn quant_ok(q: Op, count: nat) -> bool {
    match q {
        Op::AtLeast(n) => n <= count,
        _ => true,
    }
}

/// Where the attempt standing at instruction `idx` and text position `pos`
/// ends: `Some(end)` when the rest of the instruction sequence matches the
/// text up to (exclusive) position `end`, `None` when some instruction
/// fails there.
pub open spec fn match_from(ops: Seq<Op>, text: Seq<char>, pos: int, idx: int) -> Option<int>
    recommends
        wf_ops(ops),
    decreases ops.len() - idx + 2,
{
    if idx < 0 || idx >= ops.len() {
        None
    } else {
        match ops[idx] {
            Op::Final => Some(pos),
            Op::AtLeast(_) | Op::AtMost(_) => {
                let c = quant_count(ops[idx], ops[idx + 1], text, pos);
                if quant_ok(ops[idx], c) {
                    match_from(ops, text, pos + c, idx + 2)
                } else {
                    None
                }
            },
            _ => {
                if 0 <= pos < text.len() && atom_matches(ops[idx], text[pos]) {
                    match_from(ops, text, pos + 1, idx + 1)
                } else {
                    None
                }
            },
        }
    }
}

/// The leftmost match at or after `anchor`: the first anchor whose attempt
/// succeeds, paired with the length that attempt consumed.
pub open spec fn first_match_from(ops: Seq<Op>, text: Seq<char>, anchor: int) -> Option<(int, int)>
    recommends
        wf_ops(ops),
    decreases text.len() - anchor + 1,
{
    if anchor < 0 || anchor > text.len() {
        None
    } else {
        match match_from(ops, text, anchor, 0) {
            Some(end) => Some((anchor, end - anchor)),
            None => first_match_from(ops, text, anchor + 1),
        }
    }
}

/// What running a pattern over a text yields: the leftmost matching
/// substring as (start offset, length), both in codepoints, or `None` when
/// no substring matches.
pub open spec fn spec_run(ops: Seq<Op>, text: Seq<char>) -> Option<(int, int)> {
    first_match_from(ops, text, 0)
}

/// The greedy count never runs past the end of the text.
proof fn lemma_greedy_count_le(atom: Op, text: Seq<char>, pos: int)
    requires
        0 <= pos <= text.len(),
    ensures
        greedy_count(atom, text, pos) <= text.len() - pos,
    decreases text.len() - pos,
{
    if pos < text.len() && atom_matches(atom, text[pos]) {
        lemma_greedy_count_le(atom, text, pos + 1);
    }
}

/// A run of `k` consecutive matching codepoints puts the greedy count at
/// `k` at least.
proof fn lemma_greedy_count_at_least(atom: Op, text: Seq<char>, pos: int, k: nat)
    requires
        0 <= pos,
        pos + k <= text.len(),
        forall|j: int| pos <= j < pos + k ==> atom_matches(atom, #[trigger] text[j]),
    ensures
        greedy_count(atom, text, pos) >= k,
    decreases k,
{
    if k > 0 {
        assert(atom_matches(atom, text[pos]));
        lemma_greedy_count_at_least(atom, text, pos + 1, (k - 1) as nat);
    }
}

/// A run of `k` consecutive matching codepoints that ends at the end of the
/// text or at a mismatch is exactly the greedy count.
proof fn lemma_greedy_count_exact(atom: Op, text: Seq<char>, pos: int, k: nat)
    requires
        0 <= pos,
        pos + k <= text.len(),
        forall|j: int| pos <= j < pos + k ==> atom_matches(atom, #[trigger] text[j]),
        pos + k == text.len() || !atom_matches(atom, text[pos + k]),
    ensures
        greedy_count(atom, text, pos) == k,
    decreases k,
{
    if k > 0 {
        assert(atom_matches(atom, text[pos]));
        lemma_greedy_count_exact(atom, text, pos + 1, (k - 1) as nat);
    }
}

/// A successful attempt never moves backwards and ends within the text.
pub proof fn lemma_match_from_bounds(ops: Seq<Op>, text: Seq<char>, pos: int, idx: int)
    requires
        0 <= pos <= text.len(),
        match_from(ops, text, pos, idx) is Some,
    ensures
        pos <= match_from(ops, text, pos, idx)->0 <= text.len(),
    decreases ops.len() - idx + 2,
{
    if 0 <= idx < ops.len() {
        match ops[idx] {
            Op::Final => {},
            Op::AtLeast(_) | Op::AtMost(_) => {
                let c = quant_count(ops[idx], ops[idx + 1], text, pos);
                lemma_greedy_count_le(ops[idx + 1], text, pos);
                if quant_ok(ops[idx], c) {
                    lemma_match_from_bounds(ops, text, pos + c, idx + 2);
                }
            },
            _ => {
                if 0 <= pos < text.len() && atom_matches(ops[idx], text[pos]) {
                    lemma_match_from_bounds(ops, text, pos + 1, idx + 1);
                }
            },
        }
    }
}

/// A match reported from `anchor` starts at or after `anchor` and lies
/// entirely within the text.
pub proof fn lemma_first_match_from_bounds(ops: Seq<Op>, text: Seq<char>, anchor: int)
    requires
        0 <= anchor,
        first_match_from(ops, text, anchor) is Some,
    ensures
        ({
            let m = first_match_from(ops, text, anchor)->0;
            anchor <= m.0 <= text.len() && 0 <= m.1 && m.0 + m.1 <= text.len()
        }),
    decreases text.len() - anchor + 1,
{
    if anchor <= text.len() {
        if match_from(ops, text, anchor, 0) is Some {
            lemma_match_from_bounds(ops, text, anchor, 0);
        } else {
            lemma_first_match_from_bounds(ops, text, anchor + 1);
        }
    }
}

/// The engine realizes leftmost-match substring search: the attempt at the
/// reported offset succeeds with exactly the reported length, and the
/// attempt at every smaller offset fails.
pub proof fn lemma_run_leftmost(ops: Seq<Op>, text: Seq<char>)
    requires
        spec_run(ops, text) is Some,
    ensures
        ({
            let m = spec_run(ops, text)->0;
            &&& match_from(ops, text, m.0, 0) == Some(m.0 + m.1)
            &&& forall|b: int| 0 <= b < m.0 ==> match_from(ops, text, b, 0) is None
        }),
{
    lemma_first_match_leftmost(ops, text, 0);
}

proof fn lemma_first_match_leftmost(ops: Seq<Op>, text: Seq<char>, anchor: int)
    requires
        0 <= anchor,
        first_match_from(ops, text, anchor) is Some,
    ensures
        ({
            let m = first_match_from(ops, text, anchor)->0;
            &&& match_from(ops, text, m.0, 0) == Some(m.0 + m.1)
            &&& forall|b: int| anchor <= b < m.0 ==> match_from(ops, text, b, 0) is None
        }),
    decreases text.len() - anchor + 1,
{
    if anchor <= text.len() {
        if match_from(ops, text, anchor, 0) is None {
            lemma_first_match_leftmost(ops, text, anchor + 1);
        }
    }
}

/// When the engine reports no match, no offset in the text admits one.
pub proof fn lemma_run_none(ops: Seq<Op>, text: Seq<char>)
    requires
        spec_run(ops, text) is None,
    ensures
        forall|b: int| 0 <= b <= text.len() ==> match_from(ops, text, b, 0) is None,
{
    lemma_first_match_none(ops, text, 0);
}

proof fn lemma_first_match_none(ops: Seq<Op>, text: Seq<char>, anchor: int)
    requires
        0 <= anchor,
        first_match_from(ops, text, anchor) is None,
    ensures
        forall|b: int| anchor <= b <= text.len() ==> match_from(ops, text, b, 0) is None,
    decreases text.len() - anchor + 1,
{
    if anchor <= text.len() {
        lemma_first_match_none(ops, text, anchor + 1);
    }
}

impl Op {
    /// Whether this instruction succeeds: an atom against the codepoint
    /// under the cursor, a quantifier against the repetition count it
    /// consumed.
    fn run(&self, chr: Option<char>, num: Option<u64>) -> (r: bool)
        requires
            self is Cmp ==> chr is Some,
            self is AtLeast ==> num is Some,
        ensures
            r == (match *self {
                Op::Cmp(k) => chr->0 == k,
                Op::AtLeast(n) => n <= num->0,
                _ => true,
            }),
    {
        match self {
            Op::Cmp(op) => *op == chr.unwrap(),
            Op::AtLeast(n) => *n <= num.unwrap(),
            _ => true,
        }
    }
}

/// The codepoints of a text, in order.
fn to_chars(src: &str) -> (r: Vec<char>)
    ensures
        r@ == src@,
{
    let n: usize = src.unicode_len();
    let mut r: Vec<char> = Vec::new();
    let mut i: usize = 0;
    while i < n
        invariant
            n == src@.len(),
            i <= n,
            r@.len() == i,
            forall|j: int| 0 <= j < i ==> r@[j] == src@[j],
        decreases n - i,
    {
        let c = src.get_char(i);
        r.push(c);
        i += 1;
    }
    proof {
        assert(r@ =~= src@);
    }
    r
}

/// Greedily count how many consecutive codepoints from `pos` satisfy the
/// atom governed by the quantifier at `idx` (capped at the bound for
/// `AtMost`), and decide the quantifier.  Returns (satisfied, resolved with
/// zero repetitions, count).
fn repeat_op(ops: &Vec<Op>, idx: usize, text: &Vec<char>, pos: usize) -> (r: (bool, bool, usize))
    requires
        wf_ops(ops@),
        idx < ops@.len(),
        is_quant(ops@[idx as int]),
        pos <= text@.len(),
    ensures
        ({
            let c = quant_count(ops@[idx as int], ops@[idx as int + 1], text@, pos as int);
            &&& r.2 == c
            &&& r.0 == quant_ok(ops@[idx as int], c)
            &&& r.1 == (r.2 == 0 && r.0)
            &&& pos + r.2 <= text@.len()
        }),
{
    let n_ops: usize = ops.len();
    proof {
        assert(idx + 1 < ops@.len() && is_atom(ops@[idx as int + 1]));
    }
    let op = ops[idx];
    let mut at_most = false;
    let num: u64 = match op {
        Op::AtLeast(n) => n,
        Op::AtMost(n) => {
            at_most = true;
            n
        },
        _ => 0,
    };
    let next_op = ops[idx + 1];
    let n_text: usize = text.len();
    let mut count: usize = 0;
    while !(at_most && count as u64 == num) && pos + count < n_text && next_op.run(
        Some(text[pos + count]),
        None,
    )
        invariant
            idx + 1 < ops@.len(),
            op == ops@[idx as int],
            next_op == ops@[idx as int + 1],
            is_atom(next_op),
            at_most == (op is AtMost),
            op is AtLeast ==> num == op->AtLeast_0,
            op is AtMost ==> num == op->AtMost_0,
            n_text == text@.len(),
            pos <= n_text,
            count <= n_text - pos,
            forall|j: int| pos <= j < pos + count ==> atom_matches(next_op, #[trigger] text@[j]),
            at_most ==> count as u64 <= num,
        decreases n_text - pos - count,
    {
        count += 1;
    }
    proof {
        if !(at_most && count as u64 == num) {
            lemma_greedy_count_exact(next_op, text@, pos as int, count as nat);
        } else {
            lemma_greedy_count_at_least(next_op, text@, pos as int, count as nat);
        }
    }
    let successful = op.run(None, Some(count as u64));
    (successful, count == 0 && successful, count)
}

/// One attempt of the scanning engine: advance through the instructions
/// from `idx` against the text from `pos`.  `Done` carries the end position
/// of the match, `Stay` the position and instruction index to resume from
/// after a zero-length quantifier resolution, `Fail` means the attempt is
/// invalid.
fn iter_src(ops: &Vec<Op>, idx: usize, text: &Vec<char>, pos: usize) -> (r: (State, usize, usize))
    requires
        wf_ops(ops@),
        idx < ops@.len(),
        pos <= text@.len(),
    ensures
        (match r.0 {
            State::Done => match_from(ops@, text@, pos as int, idx as int) == Some(r.1 as int)
                && pos <= r.1 <= text@.len(),
            State::Fail => match_from(ops@, text@, pos as int, idx as int) is None,
            State::Stay => match_from(ops@, text@, pos as int, idx as int) == match_from(
                ops@,
                text@,
                r.1 as int,
                r.2 as int,
            ) && pos <= r.1 <= text@.len() && idx < r.2 < ops@.len(),
        }),
{
    let n_ops: usize = ops.len();
    let n_text: usize = text.len();
    let mut op_idx: usize = idx;
    let mut cur: usize = pos;
    loop
        invariant
            wf_ops(ops@),
            n_ops == ops@.len(),
            n_text == text@.len(),
            idx <= op_idx < ops@.len(),
            pos <= cur <= text@.len(),
            match_from(ops@, text@, pos as int, idx as int) == match_from(
                ops@,
                text@,
                cur as int,
                op_idx as int,
            ),
        decreases ops@.len() - op_idx,
    {
        let op = ops[op_idx];
        match op {
            Op::Final => {
                return (State::Done, cur, op_idx);
            },
            Op::AtLeast(_) | Op::AtMost(_) => {
                proof {
                    assert(is_quant(ops@[op_idx as int]));
                    assert(op_idx + 1 < ops@.len() && is_atom(ops@[op_idx as int + 1]));
                    assert(ops@[ops@.len() - 1] == Op::Final);
                    assert(op_idx + 1 != ops@.len() - 1);
                    assert(op_idx + 2 < n_ops);
                }
                let res = repeat_op(ops, op_idx, text, cur);
                if !res.0 {
                    return (State::Fail, 0, 0);
                }
                if res.1 {
                    return (State::Stay, cur, op_idx + 2);
                }
                cur = cur + res.2;
                op_idx = op_idx + 2;
            },
            _ => {
                proof {
                    assert(is_atom(ops@[op_idx as int]));
                    assert(ops@[ops@.len() - 1] == Op::Final);
                    assert(op_idx != ops@.len() - 1);
                }
                if cur < text.len() {
                    let token = text[cur];
                    if op.run(Some(token), None) {
                        cur = cur + 1;
                        op_idx = op_idx + 1;
                    } else {
                        return (State::Fail, 0, 0);
                    }
                } else {
                    return (State::Fail, 0, 0);
                }
            },
        }
    }
}

impl RegExpr {
    /// Execute the pattern against a text: the leftmost matching substring
    /// as (start offset, length) in codepoints, or `None` when no substring
    /// matches.
    pub fn run(&self, src: &str) -> (r: Option<(usize, usize)>)
        requires
            wf_ops(self@),
        ensures
            (match r {
                Some(m) => spec_run(self@, src@) == Some((m.0 as int, m.1 as int)),
                None => spec_run(self@, src@) is None,
            }),
    {
        let text = to_chars(src);
        let n: usize = text.len();
        let mut anchor: usize = 0;
        let mut pos: usize = 0;
        let mut idx: usize = 0;
        loop
            invariant
                wf_ops(self@),
                text@ == src@,
                n == text@.len(),
                anchor <= pos <= n,
                idx < self@.len(),
                anchor <= n,
                spec_run(self@, src@) == (match match_from(
                    self@,
                    text@,
                    pos as int,
                    idx as int,
                ) {
                    Some(end) => Some((anchor as int, end - anchor)),
                    None => first_match_from(self@, text@, anchor as int + 1),
                }),
            decreases n - anchor, self@.len() - idx,
        {
            let res = iter_src(&self.ops, idx, &text, pos);
            match res.0 {
                State::Stay => {
                    pos = res.1;
                    idx = res.2;
                },
                State::Fail => {
                    if anchor >= n {
                        proof {
                            assert(first_match_from(self@, text@, anchor as int + 1) is None);
                        }
                        return None;
                    }
                    anchor = anchor + 1;
                    pos = anchor;
                    idx = 0;
                },
                State::Done => {
                    return Some((anchor, res.1 - anchor));
                },
            }
        }
    }

    /// True exactly when running the pattern over the text yields a match.
    pub fn contain_match(&self, src: &str) -> (r: bool)
        requires
            wf_ops(self@),
        ensures
            r == (spec_run(self@, src@) is Some),
    {
        match self.run(src) {
            Some(_) => true,
            None => false,
        }
    }

    /// Replace the leftmost match in `src` with `tgt`, splicing by
    /// codepoint offsets; `None` when nothing matches.  The replacement is
    /// inserted verbatim, and only the first match is replaced.
    pub fn replace(&self, src: &str, tgt: &str) -> (r: Option<String>)
        requires
            wf_ops(self@),
        ensures
            (match spec_run(self@, src@) {
                Some(m) => r is Some && r->0@ == src@.take(m.0) + tgt@ + src@.skip(m.0 + m.1),
                None => r is None,
            }),
    {
        let m = match self.run(src) {
            Some(result) => result,
            None => {
                return None;
            },
        };
        proof {
            lemma_first_match_from_bounds(self@, src@, 0);
        }
        let n: usize = src.unicode_len();
        let prefix = src.substring_char(0, m.0);
        let suffix = src.substring_char(m.0 + m.1, n);
        let mut out = prefix.to_owned();
        out.append(tgt);
        out.append(suffix);
        proof {
            assert(out@ =~= src@.take(m.0 as int) + tgt@ + src@.skip(m.0 as int + m.1 as int));
        }
        Some(out)
    }
}

} // verus!
