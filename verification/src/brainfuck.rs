//! Brainfuck and its relatives: the Ook! translation, a bounded Brainfuck
//! interpreter (30000 cells in a ring, bytes that wrap), and the decoding of
//! Brainloller / Braincopter pictures into Brainfuck source.
use vstd::prelude::*;
use crate::text::{chars_of, push_char, push_str};
use vstd::string::StringExecFns;

verus! {

// ---------------------------------------------------------------------------
// Ook!
// ---------------------------------------------------------------------------

/// Whether `c` ends an Ook! word (`Ook.`, `Ook?` or `Ook!`).
pub open spec fn ook_mark(c: char) -> bool {
    c == '.' || c == '?' || c == '!'
}

/// The marks of the Ook! words of `cs`, in order; everything else is skipped.
pub open spec fn ook_tokens(cs: Seq<char>) -> Seq<char>
    decreases cs.len(),
{
    if cs.len() == 0 {
        Seq::empty()
    } else if cs.len() >= 4 && cs[0] == 'O' && cs[1] == 'o' && cs[2] == 'k' && ook_mark(cs[3]) {
        seq![cs[3]] + ook_tokens(cs.skip(4))
    } else {
        ook_tokens(cs.skip(1))
    }
}

/// The Brainfuck command of a pair of Ook! marks, if the pair is one.
pub open spec fn ook_pair(a: char, b: char) -> Option<char> {
    if a == '.' && b == '?' {
        Some('>')
    } else if a == '?' && b == '.' {
        Some('<')
    } else if a == '.' && b == '.' {
        Some('+')
    } else if a == '!' && b == '!' {
        Some('-')
    } else if a == '!' && b == '.' {
        Some('.')
    } else if a == '.' && b == '!' {
        Some(',')
    } else if a == '!' && b == '?' {
        Some('[')
    } else if a == '?' && b == '!' {
        Some(']')
    } else {
        None
    }
}

/// The Brainfuck program of an even sequence of marks, or `None` where a
/// pair is not a command.
pub open spec fn ook_pairs(toks: Seq<char>) -> Option<Seq<char>>
    decreases toks.len(),
{
    if toks.len() < 2 {
        Some(Seq::empty())
    } else {
        match (ook_pair(toks[0], toks[1]), ook_pairs(toks.skip(2))) {
            (Some(c), Some(rest)) => Some(seq![c] + rest),
            _ => None,
        }
    }
}

/// What `ook_to_bf` gives.
pub open spec fn ook_to_bf_spec(cs: Seq<char>) -> Result<Seq<char>, Seq<char>> {
    let toks = ook_tokens(cs);
    if toks.len() == 0 {
        Err("未找到任何 Ook! 记号。"@)
    } else if toks.len() % 2 != 0 {
        Err("Ook! 记号数为奇数，无法配对。"@)
    } else {
        match ook_pairs(toks) {
            Some(bf) => Ok(bf),
            None => Err("非法的 Ook! 记号对。"@),
        }
    }
}

fn ook_pair_exec(a: char, b: char) -> (r: Option<char>)
    ensures
        r == ook_pair(a, b),
{
    if a == '.' && b == '?' {
        Some('>')
    } else if a == '?' && b == '.' {
        Some('<')
    } else if a == '.' && b == '.' {
        Some('+')
    } else if a == '!' && b == '!' {
        Some('-')
    } else if a == '!' && b == '.' {
        Some('.')
    } else if a == '.' && b == '!' {
        Some(',')
    } else if a == '!' && b == '?' {
        Some('[')
    } else if a == '?' && b == '!' {
        Some(']')
    } else {
        None
    }
}

/// Translate Ook! source into Brainfuck: every `Ook.` `Ook?` `Ook!` word is
/// found and the words are read in pairs.
pub fn ook_to_bf(src: &str) -> (r: Result<String, String>)
    ensures
        match (r, ook_to_bf_spec(src@)) {
            (Ok(s), Ok(t)) => s@ == t,
            (Err(s), Err(t)) => s@ == t,
            _ => false,
        },
{
    let cs = chars_of(src);
    let n = cs.len();
    let mut toks: Vec<char> = Vec::new();
    let mut i: usize = 0;
    assert(cs@.skip(0) =~= cs@);
    while i < n
        invariant
            i <= n,
            n == cs.len(),
            cs@ == src@,
            toks@ + ook_tokens(cs@.skip(i as int)) == ook_tokens(src@),
        decreases n - i,
    {
        let ghost rest = cs@.skip(i as int);
        let ghost pre = toks@;
        if n - i > 3 && cs[i] == 'O' && cs[i + 1] == 'o' && cs[i + 2] == 'k' && (cs[i + 3] == '.'
            || cs[i + 3] == '?' || cs[i + 3] == '!') {
            toks.push(cs[i + 3]);
            assert(rest[0] == cs@[i as int] && rest[1] == cs@[i + 1] && rest[2] == cs@[i + 2]
                && rest[3] == cs@[i + 3]);
            assert(rest.skip(4) =~= cs@.skip(i + 4));
            assert(toks@ + ook_tokens(cs@.skip(i + 4)) =~= pre + (seq![cs@[i + 3]] + ook_tokens(
                rest.skip(4),
            )));
            i += 4;
        } else {
            proof {
                if rest.len() >= 4 {
                    assert(rest[0] == cs@[i as int] && rest[1] == cs@[i + 1] && rest[2] == cs@[i
                        + 2] && rest[3] == cs@[i + 3]);
                }
                assert(rest.skip(1) =~= cs@.skip(i + 1));
            }
            i += 1;
        }
    }
    assert(cs@.skip(n as int) =~= Seq::<char>::empty());
    assert(toks@ + Seq::<char>::empty() =~= toks@);
    if toks.len() == 0 {
        return Err(String::from_str("未找到任何 Ook! 记号。"));
    }
    if toks.len() % 2 != 0 {
        return Err(String::from_str("Ook! 记号数为奇数，无法配对。"));
    }
    let m = toks.len();
    let mut bf = String::new();
    let mut k: usize = 0;
    assert(toks@.skip(0) =~= toks@);
    while k < m
        invariant
            k <= m,
            m == toks.len(),
            m % 2 == 0,
            k % 2 == 0,
            toks@ == ook_tokens(src@),
            ook_pairs(toks@) == match ook_pairs(toks@.skip(k as int)) {
                Some(rest) => Some(bf@ + rest),
                None => None::<Seq<char>>,
            },
        decreases m - k,
    {
        let ghost rest = toks@.skip(k as int);
        let ghost pre = bf@;
        assert(rest[0] == toks@[k as int] && rest[1] == toks@[k + 1]);
        assert(rest.skip(2) =~= toks@.skip(k + 2));
        match ook_pair_exec(toks[k], toks[k + 1]) {
            Some(c) => {
                push_char(&mut bf, c);
                proof {
                    match ook_pairs(toks@.skip(k + 2)) {
                        Some(r2) => {
                            assert(pre + (seq![c] + r2) =~= bf@ + r2);
                        },
                        None => {},
                    }
                }
            },
            None => {
                return Err(String::from_str("非法的 Ook! 记号对。"));
            },
        }
        k += 2;
    }
    assert(toks@.skip(m as int) =~= Seq::<char>::empty());
    assert(bf@ + Seq::<char>::empty() =~= bf@);
    Ok(bf)
}

// ---------------------------------------------------------------------------
// Brainfuck interpreter
// ---------------------------------------------------------------------------

/// The eight Brainfuck commands.
pub open spec fn is_bf_op(c: char) -> bool {
    c == '>' || c == '<' || c == '+' || c == '-' || c == '.' || c == ',' || c == '[' || c == ']'
}

/// The commands of a source text; everything else is a comment.
pub open spec fn bf_code(cs: Seq<char>) -> Seq<char>
    decreases cs.len(),
{
    if cs.len() == 0 {
        Seq::empty()
    } else if is_bf_op(cs.last()) {
        bf_code(cs.drop_last()).push(cs.last())
    } else {
        bf_code(cs.drop_last())
    }
}

/// Open `[` minus closing `]` among the first `i` commands.
pub open spec fn depth(code: Seq<char>, i: int) -> int
    decreases i,
{
    if i <= 0 {
        0
    } else {
        depth(code, i - 1) + if code[i - 1] == '[' {
            1int
        } else if code[i - 1] == ']' {
            -1int
        } else {
            0int
        }
    }
}

/// Every `]` closes an earlier `[` and every `[` is closed.
pub open spec fn balanced(code: Seq<char>) -> bool {
    &&& forall|i: int| 0 <= i <= code.len() ==> depth(code, i) >= 0
    &&& depth(code, code.len() as int) == 0
}

/// The `[` at `i` and the `]` at `j` enclose each other.
pub open spec fn is_match(code: Seq<char>, i: int, j: int) -> bool {
    &&& 0 <= i < j < code.len()
    &&& code[i] == '['
    &&& code[j] == ']'
    &&& depth(code, j + 1) == depth(code, i)
    &&& forall|k: int| i < k <= j ==> depth(code, k) > depth(code, i)
}

/// The bracket that the bracket at `pc` matches.
pub open spec fn partner(code: Seq<char>, pc: int) -> int {
    if code[pc] == '[' {
        choose|j: int| is_match(code, pc, j)
    } else {
        choose|j: int| is_match(code, j, pc)
    }
}

proof fn lemma_match_unique(code: Seq<char>, i: int, j1: int, j2: int)
    requires
        is_match(code, i, j1),
        is_match(code, i, j2),
    ensures
        j1 == j2,
{
    if j1 < j2 {
        assert(depth(code, j1 + 1) > depth(code, i));
    } else if j2 < j1 {
        assert(depth(code, j2 + 1) > depth(code, i));
    }
}

proof fn lemma_match_unique_left(code: Seq<char>, i1: int, i2: int, j: int)
    requires
        is_match(code, i1, j),
        is_match(code, i2, j),
    ensures
        i1 == i2,
{
    if i1 < i2 {
        assert(depth(code, i2) > depth(code, i1));
    } else if i2 < i1 {
        assert(depth(code, i1) > depth(code, i2));
    }
}

/// The length of the tape.
pub open spec fn tape_len() -> int {
    30000
}

/// One step of the machine from a state with `pc` inside the program:
/// the new `(pc, ptr, inp, tape, out)`, `pc` already moved past the command.
pub open spec fn bf_step(
    code: Seq<char>,
    input: Seq<u8>,
    pc: int,
    ptr: int,
    inp: int,
    tape: Seq<u8>,
    out: Seq<u8>,
) -> (int, int, int, Seq<u8>, Seq<u8>) {
    let c = code[pc];
    if c == '>' {
        (pc + 1, (ptr + 1) % tape_len(), inp, tape, out)
    } else if c == '<' {
        (pc + 1, (ptr + tape_len() - 1) % tape_len(), inp, tape, out)
    } else if c == '+' {
        (pc + 1, ptr, inp, tape.update(ptr, ((tape[ptr] + 1) % 256) as u8), out)
    } else if c == '-' {
        (pc + 1, ptr, inp, tape.update(ptr, ((tape[ptr] + 255) % 256) as u8), out)
    } else if c == '.' {
        (pc + 1, ptr, inp, tape, out.push(tape[ptr]))
    } else if c == ',' {
        (
            pc + 1,
            ptr,
            inp + 1,
            tape.update(
                ptr,
                if 0 <= inp < input.len() {
                    input[inp]
                } else {
                    0u8
                },
            ),
            out,
        )
    } else if c == '[' && tape[ptr] == 0 {
        (partner(code, pc) + 1, ptr, inp, tape, out)
    } else if c == ']' && tape[ptr] != 0 {
        (partner(code, pc) + 1, ptr, inp, tape, out)
    } else {
        (pc + 1, ptr, inp, tape, out)
    }
}

/// Cell arithmetic is modulo 256: `+` adds one to the current cell (255
/// becomes 0), `-` takes one away (0 becomes 255), and neither touches
/// another cell or moves the pointer.
pub proof fn lemma_bf_cells_wrap(
    code: Seq<char>,
    input: Seq<u8>,
    pc: int,
    ptr: int,
    inp: int,
    tape: Seq<u8>,
    out: Seq<u8>,
)
    requires
        0 <= pc < code.len(),
        0 <= ptr < tape.len(),
        code[pc] == '+' || code[pc] == '-',
    ensures
        ({
            let (pc2, ptr2, inp2, tape2, out2) = bf_step(code, input, pc, ptr, inp, tape, out);
            &&& pc2 == pc + 1 && ptr2 == ptr && inp2 == inp && out2 == out
            &&& tape2.len() == tape.len()
            &&& forall|q: int| 0 <= q < tape.len() && q != ptr ==> tape2[q] == tape[q]
            &&& code[pc] == '+' ==> tape2[ptr] as int == if tape[ptr] == 255 {
                0
            } else {
                tape[ptr] + 1
            }
            &&& code[pc] == '-' ==> tape2[ptr] as int == if tape[ptr] == 0 {
                255
            } else {
                tape[ptr] - 1
            }
        }),
{
}

/// The pointer moves on a ring of 30000 cells (`>` from the last cell goes
/// to the first, `<` from the first to the last); `.` appends the current
/// cell to the output; `,` stores the next input byte, or 0 once the input
/// is used up, and moves on in the input. None of them changes anything
/// else.
pub proof fn lemma_bf_moves_and_io(
    code: Seq<char>,
    input: Seq<u8>,
    pc: int,
    ptr: int,
    inp: int,
    tape: Seq<u8>,
    out: Seq<u8>,
)
    requires
        0 <= pc < code.len(),
        0 <= ptr < tape_len(),
        0 <= inp,
        tape.len() == tape_len(),
    ensures
        ({
            let (pc2, ptr2, inp2, tape2, out2) = bf_step(code, input, pc, ptr, inp, tape, out);
            &&& code[pc] == '>' ==> pc2 == pc + 1 && tape2 == tape && inp2 == inp && out2 == out && ptr2 == if ptr
                == 29999 {
                0
            } else {
                ptr + 1
            }
            &&& code[pc] == '<' ==> pc2 == pc + 1 && tape2 == tape && inp2 == inp && out2 == out && ptr2 == if ptr
                == 0 {
                29999
            } else {
                ptr - 1
            }
            &&& code[pc] == '.' ==> pc2 == pc + 1 && ptr2 == ptr && tape2 == tape && inp2 == inp && out2.len()
                == out.len() + 1 && out2.last() == tape[ptr] && out2.drop_last() == out
            &&& code[pc] == ',' ==> pc2 == pc + 1 && ptr2 == ptr && inp2 == inp + 1 && out2 == out && tape2.len()
                == tape.len() && tape2[ptr] == (if inp < input.len() {
                input[inp]
            } else {
                0u8
            }) && forall|q: int| 0 <= q < tape.len() && q != ptr ==> tape2[q] == tape[q]
        }),
{
    if code[pc] == '.' {
        assert(out.push(tape[ptr]).drop_last() =~= out);
    }
}

/// Loops: a `[` on a zero cell goes on after its matching `]`, and on
/// another cell into the loop; a `]` on a non-zero cell goes back to just
/// after its matching `[`, and on a zero cell leaves the loop. Brackets
/// change nothing but the position in the program.
pub proof fn lemma_bf_loops(
    code: Seq<char>,
    input: Seq<u8>,
    pc: int,
    ptr: int,
    inp: int,
    tape: Seq<u8>,
    out: Seq<u8>,
    i: int,
    j: int,
)
    requires
        0 <= pc < code.len(),
        0 <= ptr < tape.len(),
        is_match(code, i, j),
        pc == i || pc == j,
    ensures
        ({
            let (pc2, ptr2, inp2, tape2, out2) = bf_step(code, input, pc, ptr, inp, tape, out);
            &&& ptr2 == ptr && inp2 == inp && tape2 == tape && out2 == out
            &&& pc == i ==> pc2 == if tape[ptr] == 0 {
                j + 1
            } else {
                i + 1
            }
            &&& pc == j ==> pc2 == if tape[ptr] != 0 {
                i + 1
            } else {
                j + 1
            }
        }),
{
    if pc == i && tape[ptr] == 0 {
        let k = choose|k: int| is_match(code, i, k);
        lemma_match_unique(code, i, k, j);
    }
    if pc == j && tape[ptr] != 0 {
        let k = choose|k: int| is_match(code, k, j);
        lemma_match_unique_left(code, k, i, j);
    }
}

/// The output of running the program from the given state with at most
/// `fuel` more steps, or `Err` where it would take more.
pub open spec fn bf_run(
    code: Seq<char>,
    input: Seq<u8>,
    pc: int,
    ptr: int,
    inp: int,
    tape: Seq<u8>,
    out: Seq<u8>,
    fuel: nat,
) -> Result<Seq<u8>, ()>
    decreases fuel,
{
    if pc < 0 || pc >= code.len() {
        Ok(out)
    } else if fuel == 0 {
        Err(())
    } else {
        let (pc2, ptr2, inp2, tape2, out2) = bf_step(code, input, pc, ptr, inp, tape, out);
        bf_run(code, input, pc2, ptr2, inp2, tape2, out2, (fuel - 1) as nat)
    }
}

/// A tape of 30000 zero cells.
pub open spec fn zero_tape() -> Seq<u8> {
    Seq::new(30000, |k: int| 0u8)
}

/// What `run_bf` gives: an error for unbalanced brackets, else the output
/// of the program on a zeroed tape, or an error where it takes more than
/// `max_steps` steps.
pub open spec fn run_bf_spec(src: Seq<char>, input: Seq<u8>, max_steps: nat) -> Result<
    Seq<u8>,
    Seq<char>,
> {
    let code = bf_code(src);
    if !balanced(code) {
        Err("方括号不匹配"@)
    } else {
        match bf_run(code, input, 0, 0, 0, zero_tape(), Seq::empty(), max_steps) {
            Ok(o) => Ok(o),
            Err(_) => Err("执行步数超限（可能死循环）"@),
        }
    }
}

/// Reading a byte and incrementing it prints that byte plus one modulo
/// 256, for every input byte (so 255 prints 0), and reading a byte and
/// decrementing it prints it minus one modulo 256, given steps enough.
pub proof fn lemma_bf_increment_program(b: u8, n: nat)
    requires
        n >= 3,
    ensures
        run_bf_spec(",+."@, seq![b], n) == Ok::<Seq<u8>, Seq<char>>(seq![((b as int + 1) % 256) as u8]),
        run_bf_spec(",-."@, seq![b], n) == Ok::<Seq<u8>, Seq<char>>(seq![((b as int + 255) % 256) as u8]),
{
    reveal_strlit(",+.");
    reveal_strlit(",-.");
    lemma_bf_three(",+."@, b, n);
    lemma_bf_three(",-."@, b, n);
}

proof fn lemma_bf_three(src: Seq<char>, b: u8, n: nat)
    requires
        n >= 3,
        src.len() == 3,
        src[0] == ',',
        src[1] == '+' || src[1] == '-',
        src[2] == '.',
    ensures
        run_bf_spec(src, seq![b], n) == Ok::<Seq<u8>, Seq<char>>(seq![
            (if src[1] == '+' {
                (b as int + 1) % 256
            } else {
                (b as int + 255) % 256
            }) as u8,
        ]),
{
    let code = seq![',', src[1], '.'];
    let s1 = src.drop_last().drop_last();
    assert(s1.len() == 1 && s1[0] == ',');
    assert(s1.last() == ',');
    assert(s1.drop_last() =~= Seq::<char>::empty());
    assert(bf_code(s1.drop_last()) == Seq::<char>::empty());
    assert(is_bf_op(s1.last()));
    assert(bf_code(s1) == bf_code(s1.drop_last()).push(','));
    assert(bf_code(s1) =~= seq![',']);
    assert(bf_code(src.drop_last()) =~= seq![',', src[1]]);
    assert(bf_code(src) =~= code);
    assert(code[0] == ',' && code[1] == src[1] && code[2] == '.');
    assert(depth(code, 0) == 0);
    assert(depth(code, 1) == depth(code, 0) + 0);
    assert(depth(code, 1) == 0);
    assert(depth(code, 2) == 0);
    assert(depth(code, 3) == 0);
    assert forall|i: int| 0 <= i <= code.len() implies depth(code, i) >= 0 by {
        assert(i == 0 || i == 1 || i == 2 || i == 3);
    }
    assert(balanced(code));
    let input = seq![b];
    let t0 = zero_tape();
    let t1 = t0.update(0, b);
    let v = (if src[1] == '+' {
        (b as int + 1) % 256
    } else {
        (b as int + 255) % 256
    }) as u8;
    let t2 = t1.update(0, v);
    assert(bf_step(code, input, 0, 0, 0, t0, Seq::empty()) == (1int, 0int, 1int, t1, Seq::<u8>::empty()));
    assert(bf_step(code, input, 1, 0, 1, t1, Seq::empty()) == (2int, 0int, 1int, t2, Seq::<u8>::empty()));
    assert(bf_step(code, input, 2, 0, 1, t2, Seq::empty()) == (3int, 0int, 1int, t2, seq![v]));
    assert(bf_run(code, input, 3, 0, 1, t2, seq![v], (n - 3) as nat) == Ok::<Seq<u8>, ()>(seq![v]));
    assert(bf_run(code, input, 2, 0, 1, t2, Seq::empty(), (n - 2) as nat) == Ok::<Seq<u8>, ()>(seq![v]));
    assert(bf_run(code, input, 1, 0, 1, t1, Seq::empty(), (n - 1) as nat) == Ok::<Seq<u8>, ()>(seq![v]));
    assert(bf_run(code, input, 0, 0, 0, t0, Seq::empty(), n) == Ok::<Seq<u8>, ()>(seq![v]));
}

/// The commands of `src`.
fn bf_code_exec(src: &str) -> (code: Vec<char>)
    ensures
        code@ == bf_code(src@),
{
    let cs = chars_of(src);
    let mut code: Vec<char> = Vec::new();
    let mut i: usize = 0;
    assert(cs@.take(0) =~= Seq::<char>::empty());
    while i < cs.len()
        invariant
            i <= cs.len(),
            cs@ == src@,
            code@ == bf_code(cs@.take(i as int)),
        decreases cs.len() - i,
    {
        let c = cs[i];
        assert(cs@.take(i + 1).drop_last() =~= cs@.take(i as int));
        assert(cs@.take(i + 1).last() == c);
        if c == '>' || c == '<' || c == '+' || c == '-' || c == '.' || c == ',' || c == '[' || c
            == ']' {
            code.push(c);
        }
        i += 1;
    }
    assert(cs@.take(cs.len() as int) =~= cs@);
    code
}

/// Pair up the brackets: `Some(jumps)` where they balance, with each
/// bracket's entry the position of its partner.
fn match_brackets(code: &Vec<char>) -> (r: Option<Vec<usize>>)
    ensures
        r is Some == balanced(code@),
        r matches Some(jumps) ==> jumps.len() == code.len() && (forall|i: int|
            0 <= i < code.len() && code@[i] == '[' ==> is_match(code@, i, jumps@[i] as int)) && (
        forall|j: int| 0 <= j < code.len() && code@[j] == ']' ==> is_match(code@, jumps@[j] as int, j)),
{
    let n = code.len();
    let mut jumps: Vec<usize> = Vec::new();
    let mut z: usize = 0;
    while z < n
        invariant
            z <= n,
            jumps.len() == z,
        decreases n - z,
    {
        jumps.push(0);
        z += 1;
    }
    let mut stack: Vec<usize> = Vec::new();
    let mut i: usize = 0;
    while i < n
        invariant
            i <= n,
            n == code.len(),
            jumps.len() == n,
            forall|k: int| 0 <= k <= i ==> depth(code@, k) >= 0,
            stack.len() == depth(code@, i as int),
            forall|d: int|
                0 <= d < stack.len() ==> {
                    &&& (#[trigger] stack@[d]) < i
                    &&& code@[stack@[d] as int] == '['
                    &&& depth(code@, stack@[d] as int) == d
                    &&& forall|k: int| stack@[d] < k <= i ==> depth(code@, k) > d
                },
            forall|p: int|
                0 <= p < i && code@[p] == '[' ==> (exists|d: int|
                    0 <= d < stack.len() && #[trigger] stack@[d] == p) || is_match(
                    code@,
                    p,
                    jumps@[p] as int,
                ),
            forall|q: int| 0 <= q < i && code@[q] == ']' ==> is_match(code@, jumps@[q] as int, q),
        decreases n - i,
    {
        let c = code[i];
        let ghost old_stack = stack@;
        let ghost old_jumps = jumps@;
        if c == '[' {
            stack.push(i);
            proof {
                assert forall|d: int| 0 <= d < stack.len() implies {
                    &&& (#[trigger] stack@[d]) < i + 1
                    &&& code@[stack@[d] as int] == '['
                    &&& depth(code@, stack@[d] as int) == d
                    &&& forall|k: int| stack@[d] < k <= i + 1 ==> depth(code@, k) > d
                } by {
                    if d < old_stack.len() {
                        assert(stack@[d] == old_stack[d]);
                    }
                }
                assert forall|p: int| 0 <= p < i + 1 && code@[p] == '[' implies (exists|d: int|
                    0 <= d < stack.len() && #[trigger] stack@[d] == p) || is_match(
                    code@,
                    p,
                    jumps@[p] as int,
                ) by {
                    if p == i {
                        assert(stack@[old_stack.len() as int] == p);
                    } else if exists|d: int| 0 <= d < old_stack.len() && #[trigger] old_stack[d] == p {
                        let d = choose|d: int| 0 <= d < old_stack.len() && #[trigger] old_stack[d] == p;
                        assert(stack@[d] == p);
                    }
                }
            }
        } else if c == ']' {
            if stack.len() == 0 {
                assert(depth(code@, i + 1) < 0);
                return None;
            }
            let j = stack.pop().unwrap();
            let ghost d = stack.len() as int;
            assert(old_stack[d] == j);
            assert(is_match(code@, j as int, i as int));
            jumps.set(i, j);
            jumps.set(j, i);
            proof {
                assert forall|p: int| 0 <= p < i + 1 && code@[p] == '[' implies (exists|d2: int|
                    0 <= d2 < stack.len() && #[trigger] stack@[d2] == p) || is_match(
                    code@,
                    p,
                    jumps@[p] as int,
                ) by {
                    if p == j {
                    } else if exists|d2: int| 0 <= d2 < old_stack.len() && #[trigger] old_stack[d2] == p {
                        let d2 = choose|d2: int| 0 <= d2 < old_stack.len() && #[trigger] old_stack[d2] == p;
                        if d2 == d {
                        } else {
                            assert(stack@[d2] == p);
                        }
                    } else {
                        assert(jumps@[p] == old_jumps[p]);
                    }
                }
                assert forall|q: int| 0 <= q < i + 1 && code@[q] == ']' implies is_match(
                    code@,
                    jumps@[q] as int,
                    q,
                ) by {
                    if q < i {
                        assert(jumps@[q] == old_jumps[q]);
                    }
                }
                assert forall|d2: int| 0 <= d2 < stack.len() implies {
                    &&& (#[trigger] stack@[d2]) < i + 1
                    &&& code@[stack@[d2] as int] == '['
                    &&& depth(code@, stack@[d2] as int) == d2
                    &&& forall|k: int| stack@[d2] < k <= i + 1 ==> depth(code@, k) > d2
                } by {
                    assert(stack@[d2] == old_stack[d2]);
                }
            }
        }
        i += 1;
    }
    if stack.len() > 0 {
        return None;
    }
    proof {
        assert forall|p: int| 0 <= p < n && code@[p] == '[' implies is_match(
            code@,
            p,
            jumps@[p] as int,
        ) by {
            if exists|d: int| 0 <= d < stack.len() && #[trigger] stack@[d] == p {
            }
        }
    }
    Some(jumps)
}

/// Run a Brainfuck program on `input`, for at most `max_steps` steps, on a
/// ring of 30000 byte cells that wrap.
pub fn run_bf(src: &str, input: &[u8], max_steps: usize) -> (r: Result<Vec<u8>, String>)
    ensures
        match (r, run_bf_spec(src@, input@, max_steps as nat)) {
            (Ok(v), Ok(w)) => v@ == w,
            (Err(s), Err(t)) => s@ == t,
            _ => false,
        },
{
    let code = bf_code_exec(src);
    let jumps = match match_brackets(&code) {
        Some(j) => j,
        None => {
            return Err(String::from_str("方括号不匹配"));
        },
    };
    let mut tape: Vec<u8> = Vec::new();
    while tape.len() < 30000
        invariant
            tape.len() <= 30000,
            forall|k: int| 0 <= k < tape.len() ==> tape@[k] == 0,
        decreases 30000 - tape.len(),
    {
        tape.push(0);
    }
    assert(tape@ =~= zero_tape());
    let mut ptr: usize = 0;
    let mut pc: usize = 0;
    let mut inp: usize = 0;
    let mut steps: usize = 0;
    let mut out: Vec<u8> = Vec::new();
    let ghost whole = bf_run(
        code@,
        input@,
        0,
        0,
        0,
        zero_tape(),
        Seq::empty(),
        max_steps as nat,
    );
    while pc < code.len()
        invariant
            code@ == bf_code(src@),
            balanced(code@),
            jumps.len() == code.len(),
            forall|i: int|
                0 <= i < code.len() && code@[i] == '[' ==> is_match(code@, i, jumps@[i] as int),
            forall|j: int|
                0 <= j < code.len() && code@[j] == ']' ==> is_match(code@, jumps@[j] as int, j),
            steps <= max_steps,
            inp <= steps,
            ptr < 30000,
            whole == bf_run(code@, input@, 0, 0, 0, zero_tape(), Seq::empty(), max_steps as nat),
            tape.len() == 30000,
            whole == bf_run(
                code@,
                input@,
                pc as int,
                ptr as int,
                inp as int,
                tape@,
                out@,
                (max_steps - steps) as nat,
            ),
        decreases max_steps - steps,
    {
        if steps >= max_steps {
            assert(whole == Err::<Seq<u8>, ()>(()));
            assert(run_bf_spec(src@, input@, max_steps as nat) == Err::<Seq<u8>, Seq<char>>(
                "执行步数超限（可能死循环）"@,
            ));
            let e = String::from_str("执行步数超限（可能死循环）");
            assert(e@ == "执行步数超限（可能死循环）"@);
            return Err(e);
        }
        steps += 1;
        let c = code[pc];
        let ghost st = bf_step(code@, input@, pc as int, ptr as int, inp as int, tape@, out@);
        if c == '>' {
            ptr = (ptr + 1) % 30000;
        } else if c == '<' {
            ptr = (ptr + 30000 - 1) % 30000;
        } else if c == '+' {
            let t = tape[ptr];
            tape.set(
                ptr,
                if t == 255 {
                    0
                } else {
                    t + 1
                },
            );
        } else if c == '-' {
            let t = tape[ptr];
            tape.set(
                ptr,
                if t == 0 {
                    255
                } else {
                    t - 1
                },
            );
        } else if c == '.' {
            out.push(tape[ptr]);
        } else if c == ',' {
            let v = if inp < input.len() {
                input[inp]
            } else {
                0
            };
            tape.set(ptr, v);
            inp += 1;
        } else if c == '[' && tape[ptr] == 0 {
            proof {
                lemma_match_unique(code@, pc as int, jumps@[pc as int] as int, partner(code@, pc as int));
            }
            pc = jumps[pc];
        } else if c == ']' && tape[ptr] != 0 {
            proof {
                lemma_match_unique_left(code@, jumps@[pc as int] as int, partner(code@, pc as int), pc as int);
            }
            pc = jumps[pc];
        }
        pc += 1;
        assert(st == (pc as int, ptr as int, inp as int, tape@, out@));
    }
    Ok(out)
}

// ---------------------------------------------------------------------------
// Brainloller / Braincopter pictures
// ---------------------------------------------------------------------------

/// An RGB picture, row by row from the top left.
pub struct RgbGrid {
    pub width: usize,
    pub height: usize,
    pub pixels: Vec<(u8, u8, u8)>,
}

impl RgbGrid {
    /// One pixel per position.
    pub open spec fn wf(&self) -> bool {
        self.pixels@.len() == self.width * self.height
    }

    pub open spec fn pixel(&self, x: int, y: int) -> (u8, u8, u8) {
        self.pixels@[y * self.width + x]
    }
}

/// The Brainfuck command characters, by command number.
pub open spec fn bf_op(c: int) -> char {
    if c == 0 {
        '>'
    } else if c == 1 {
        '<'
    } else if c == 2 {
        '+'
    } else if c == 3 {
        '-'
    } else if c == 4 {
        '.'
    } else if c == 5 {
        ','
    } else if c == 6 {
        '['
    } else {
        ']'
    }
}

/// The Brainloller command of a colour: 0 to 7 the Brainfuck commands, 8 and
/// 9 turns clockwise and anticlockwise; other colours are no command.
pub open spec fn brainloller_spec(r: u8, g: u8, b: u8) -> Option<int> {
    if r == 255 && g == 0 && b == 0 {
        Some(0)
    } else if r == 128 && g == 0 && b == 0 {
        Some(1)
    } else if r == 0 && g == 255 && b == 0 {
        Some(2)
    } else if r == 0 && g == 128 && b == 0 {
        Some(3)
    } else if r == 0 && g == 0 && b == 255 {
        Some(4)
    } else if r == 0 && g == 0 && b == 128 {
        Some(5)
    } else if r == 255 && g == 255 && b == 0 {
        Some(6)
    } else if r == 128 && g == 128 && b == 0 {
        Some(7)
    } else if r == 0 && g == 255 && b == 255 {
        Some(8)
    } else if r == 0 && g == 128 && b == 128 {
        Some(9)
    } else {
        None
    }
}

/// The Brainloller command of a colour.
pub fn brainloller_cmd(r: u8, g: u8, b: u8) -> (c: Option<usize>)
    ensures
        match (c, brainloller_spec(r, g, b)) {
            (Some(x), Some(y)) => x == y,
            (None, None) => true,
            _ => false,
        },
{
    if r == 255 && g == 0 && b == 0 {
        Some(0)
    } else if r == 128 && g == 0 && b == 0 {
        Some(1)
    } else if r == 0 && g == 255 && b == 0 {
        Some(2)
    } else if r == 0 && g == 128 && b == 0 {
        Some(3)
    } else if r == 0 && g == 0 && b == 255 {
        Some(4)
    } else if r == 0 && g == 0 && b == 128 {
        Some(5)
    } else if r == 255 && g == 255 && b == 0 {
        Some(6)
    } else if r == 128 && g == 128 && b == 0 {
        Some(7)
    } else if r == 0 && g == 255 && b == 255 {
        Some(8)
    } else if r == 0 && g == 128 && b == 128 {
        Some(9)
    } else {
        None
    }
}

/// The command of a pixel: for Braincopter `(R*65536 + G*256 + B) % 11`,
/// for Brainloller the colour's command.
pub open spec fn pixel_cmd(px: (u8, u8, u8), braincopter: bool) -> Option<int> {
    if braincopter {
        Some((px.0 as int * 65536 + px.1 as int * 256 + px.2 as int) % 11)
    } else {
        brainloller_spec(px.0, px.1, px.2)
    }
}

/// The x and y steps of a direction: east, south, west, north.
pub open spec fn dir_dx(dir: int) -> int {
    if dir == 0 {
        1
    } else if dir == 2 {
        -1
    } else {
        0
    }
}

pub open spec fn dir_dy(dir: int) -> int {
    if dir == 1 {
        1
    } else if dir == 3 {
        -1
    } else {
        0
    }
}

/// The Brainfuck source read by the instruction pointer from `(x, y)` going
/// in `dir`, for at most `fuel` more pixels: commands 0 to 7 are written
/// out, 8 and 9 turn, anything else is skipped; the walk ends off the
/// picture.
pub open spec fn walk_spec(img: RgbGrid, braincopter: bool, x: int, y: int, dir: int, fuel: nat) -> Seq<
    char,
>
    decreases fuel,
{
    if !(0 <= x < img.width && 0 <= y < img.height) || fuel == 0 {
        Seq::empty()
    } else {
        let cmd = pixel_cmd(img.pixel(x, y), braincopter);
        let emit = match cmd {
            Some(c) => if c < 8 {
                seq![bf_op(c)]
            } else {
                Seq::empty()
            },
            None => Seq::empty(),
        };
        let dir2 = match cmd {
            Some(c) => if c == 8 {
                (dir + 1) % 4
            } else if c == 9 {
                (dir + 3) % 4
            } else {
                dir
            },
            None => dir,
        };
        emit + walk_spec(img, braincopter, x + dir_dx(dir2), y + dir_dy(dir2), dir2, (fuel - 1) as nat)
    }
}

/// The step bound of a walk: eight visits per pixel and a margin.
pub open spec fn walk_bound(img: RgbGrid) -> nat {
    (img.width * img.height * 8 + 1024) as nat
}

/// Decode a Brainloller (or, with `braincopter`, Braincopter) picture into
/// Brainfuck source by following the instruction pointer from the top left
/// corner, heading east.
pub fn decode_picture(img: &RgbGrid, braincopter: bool) -> (out: String)
    requires
        img.wf(),
        img.pixels@.len() * 8 + 1024 <= usize::MAX,
        img.width <= i64::MAX,
        img.height <= i64::MAX,
    ensures
        out@ == walk_spec(*img, braincopter, 0, 0, 0, walk_bound(*img)),
{
    let w = img.width as i64;
    let h = img.height as i64;
    let mut x: i64 = 0;
    let mut y: i64 = 0;
    let mut dir: usize = 0;
    let mut out = String::new();
    let max_steps = img.pixels.len() * 8 + 1024;
    let mut steps: usize = 0;
    let ghost whole = walk_spec(*img, braincopter, 0, 0, 0, walk_bound(*img));
    assert(out@ + whole =~= whole);
    while x >= 0 && x < w && y >= 0 && y < h && steps < max_steps
        invariant
            img.wf(),
            w == img.width,
            h == img.height,
            dir < 4,
            steps <= max_steps,
            max_steps == walk_bound(*img),
            -1 <= x <= w,
            -1 <= y <= h,
            whole == walk_spec(*img, braincopter, 0, 0, 0, walk_bound(*img)),
            out@ + walk_spec(*img, braincopter, x as int, y as int, dir as int, (max_steps - steps) as nat)
                == whole,
        decreases max_steps - steps,
    {
        let ghost pre = out@;
        let ghost fuel = (max_steps - steps) as nat;
        let ghost d0 = dir as int;
        steps += 1;
        let ux = x as usize;
        let uy = y as usize;
        proof {
            assert(uy * img.width + ux < img.width * img.height) by (nonlinear_arith)
                requires
                    uy < img.height,
                    ux < img.width,
            ;
        }
        let px = img.pixels[uy * img.width + ux];
        let cmd = if braincopter {
            Some((px.0 as usize * 65536 + px.1 as usize * 256 + px.2 as usize) % 11)
        } else {
            brainloller_cmd(px.0, px.1, px.2)
        };
        match cmd {
            Some(c) => {
                if c < 8 {
                    let op = if c == 0 {
                        '>'
                    } else if c == 1 {
                        '<'
                    } else if c == 2 {
                        '+'
                    } else if c == 3 {
                        '-'
                    } else if c == 4 {
                        '.'
                    } else if c == 5 {
                        ','
                    } else if c == 6 {
                        '['
                    } else {
                        ']'
                    };
                    push_char(&mut out, op);
                } else if c == 8 {
                    dir = (dir + 1) % 4;
                } else if c == 9 {
                    dir = (dir + 3) % 4;
                }
            },
            None => {},
        }
        if dir == 0 {
            x += 1;
        } else if dir == 1 {
            y += 1;
        } else if dir == 2 {
            x -= 1;
        } else {
            y -= 1;
        }
        proof {
            assert(img.pixel(ux as int, uy as int) == px);
            let rest = walk_spec(*img, braincopter, x as int, y as int, dir as int, (fuel - 1) as nat);
            assert(out@ + rest =~= pre + walk_spec(*img, braincopter, ux as int, uy as int, d0, fuel));
        }
    }
    proof {
        assert(walk_spec(*img, braincopter, x as int, y as int, dir as int, (max_steps - steps) as nat)
            =~= Seq::<char>::empty());
        assert(out@ + Seq::<char>::empty() =~= out@);
    }
    out
}

} // verus!
