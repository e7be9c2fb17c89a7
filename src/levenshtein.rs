//! Edit distances between strings, and the word-wise alignment score built on them.

use crate::text::chars_of;
use vstd::prelude::*;

verus! {

/// One step of an edit script turning a first string into a second one.
#[derive(Clone, Copy, Debug, PartialEq, Eq, Structural)]
pub enum Operation {
    Keep,
    Subst,
    Insert,
    Delete,
}

impl Operation {
    pub fn is_keep(&self) -> (r: bool)
        ensures
            r == (*self == Operation::Keep),
    {
        match self {
            Operation::Keep => true,
            _ => false,
        }
    }
}

const KEEP: u64 = 0;
const SUBST: u64 = 1;
const DEL: u64 = 2;
const INS: u64 = 3;

/// Operations packed into one 64-bit word.
const PER_WORD: usize = 32;

pub open spec fn code_of(op: Operation) -> u64 {
    match op {
        Operation::Keep => 0,
        Operation::Subst => 1,
        Operation::Delete => 2,
        Operation::Insert => 3,
    }
}

pub open spec fn op_of_code(x: u64) -> Operation {
    if x == 0 {
        Operation::Keep
    } else if x == 1 {
        Operation::Subst
    } else if x == 2 {
        Operation::Delete
    } else {
        Operation::Insert
    }
}

/// The number of operations of `ops` that are not `Keep`.
pub open spec fn cost_of(ops: Seq<Operation>) -> nat
    decreases ops.len(),
{
    if ops.len() == 0 {
        0
    } else {
        cost_of(ops.drop_last()) + if ops.last() == Operation::Keep { 0nat } else { 1nat }
    }
}

/// The two bits of operation `k` in a packed word sequence.
pub open spec fn slot(words: Seq<u64>, k: int) -> u64 {
    (words[k / 32] >> (((k % 32) * 2) as u64)) & 3
}

/// An edit script: its operations, two bits each, and its cost.
pub struct Distance {
    pub distance: usize,
    words: Vec<u64>,
    len: usize,
}

impl View for Distance {
    type V = Seq<Operation>;

    closed spec fn view(&self) -> Seq<Operation> {
        Seq::new(self.len as nat, |k: int| op_of_code(slot(self.words@, k)))
    }
}

proof fn lemma_cost_le_len(ops: Seq<Operation>)
    ensures
        cost_of(ops) <= ops.len(),
    decreases ops.len(),
{
    if ops.len() > 0 {
        lemma_cost_le_len(ops.drop_last());
    }
}

proof fn lemma_code_round_trip(op: Operation)
    ensures
        code_of(op) < 4,
        op_of_code(code_of(op)) == op,
        code_of(op) & 3 == code_of(op),
        code_of(op) >> 0u64 == code_of(op),
{
    let c = code_of(op);
    assert(c < 4 ==> c & 3 == c) by (bit_vector);
    assert(c >> 0u64 == c) by (bit_vector);
}

proof fn lemma_or_keeps_lower(w: u64, c: u64, s: u64, t: u64)
    requires
        c < 4,
        t < s < 32,
        w >> (s * 2) == 0,
    ensures
        ((w | (c << (s * 2))) >> (t * 2)) & 3 == (w >> (t * 2)) & 3,
{
    assert(c < 4 && t < s && s < 32 && w >> (s * 2) == 0 ==> ((w | (c << (s * 2))) >> (t * 2)) & 3
        == (w >> (t * 2)) & 3) by (bit_vector);
}

proof fn lemma_or_sets_slot(w: u64, c: u64, s: u64)
    requires
        c < 4,
        s < 32,
        w >> (s * 2) == 0,
    ensures
        ((w | (c << (s * 2))) >> (s * 2)) & 3 == c,
        s + 1 < 32 ==> (w | (c << (s * 2))) >> ((s + 1) * 2) == 0,
{
    assert(c < 4 && s < 32 && w >> (s * 2) == 0 ==> ((w | (c << (s * 2))) >> (s * 2)) & 3 == c)
        by (bit_vector);
    assert(c < 4 && s + 1 < 32 && w >> (s * 2) == 0 ==> (w | (c << (s * 2))) >> ((s + 1) * 2)
        == 0) by (bit_vector);
}

proof fn lemma_fresh_word(c: u64)
    requires
        c < 4,
    ensures
        (c >> 0u64) & 3 == c,
        c >> 2u64 == 0,
{
    assert(c < 4 ==> (c >> 0u64) & 3 == c) by (bit_vector);
    assert(c < 4 ==> c >> 2u64 == 0) by (bit_vector);
}

impl Distance {
    /// The packing is consistent and `distance` counts the operations that are not `Keep`.
    pub closed spec fn wf(&self) -> bool {
        &&& self.words@.len() == (self.len as int + 31) / 32
        &&& (self.len % 32 != 0 ==> self.words@.last() >> (((self.len % 32) * 2) as u64) == 0)
        &&& self.distance == cost_of(self@)
    }

    /// The cost of the script, as held in its `distance` field.
    pub closed spec fn cost(&self) -> nat {
        self.distance as nat
    }

    /// The empty script.
    pub fn new() -> (r: Distance)
        ensures
            r.wf(),
            r@ == Seq::<Operation>::empty(),
            r.cost() == 0,
    {
        let r = Distance { distance: 0, words: Vec::new(), len: 0 };
        assert(r@ =~= Seq::<Operation>::empty());
        r
    }

    /// The number of operations.
    pub fn len(&self) -> (r: usize)
        requires
            self.wf(),
        ensures
            r == self@.len(),
    {
        self.len
    }

    /// This script extended by one operation.
    pub fn next(&self, op: Operation) -> (r: Distance)
        requires
            self.wf(),
            self@.len() < usize::MAX,
        ensures
            r.wf(),
            r@ == self@.push(op),
            r.cost() == cost_of(r@),
            r.cost() == self.cost() + if op == Operation::Keep { 0int } else { 1int },
    {
        let opcode: u64 = match op {
            Operation::Keep => KEEP,
            Operation::Subst => SUBST,
            Operation::Insert => INS,
            Operation::Delete => DEL,
        };
        proof {
            lemma_code_round_trip(op);
        }
        assert(opcode == code_of(op));
        let mut newwords: Vec<u64> = Vec::new();
        let mut i: usize = 0;
        while i < self.words.len()
            invariant
                i <= self.words@.len(),
                newwords@ == self.words@.subrange(0, i as int),
            decreases self.words@.len() - i,
        {
            newwords.push(self.words[i]);
            i = i + 1;
        }
        assert(newwords@ =~= self.words@);
        let ghost old_words = self.words@;
        if self.len % PER_WORD == 0 {
            newwords.push(opcode);
            proof {
                lemma_fresh_word(opcode);
            }
        } else {
            let n = newwords.len();
            let s: u64 = (self.len % PER_WORD) as u64;
            let w = newwords[n - 1];
            proof {
                lemma_or_sets_slot(w, opcode, s);
            }
            newwords.set(n - 1, w | (opcode << (s * 2)));
        }
        proof {
            lemma_cost_le_len(self@);
        }
        let ghost r_words = newwords@;
        let r = Distance {
            distance: self.distance + if op.is_keep() { 0 } else { 1 },
            words: newwords,
            len: self.len + 1,
        };
        assert forall|k: int| 0 <= k < self.len implies slot(r_words, k) == slot(old_words, k) by {
            if self.len % 32 != 0 && k / 32 == old_words.len() - 1 {
                let s = (self.len % 32) as u64;
                let t = (k % 32) as u64;
                lemma_or_keeps_lower(old_words.last(), opcode, s, t);
            }
        }
        assert(slot(r_words, self.len as int) == opcode);
        assert(r@ =~= self@.push(op));
        assert(r@.drop_last() =~= self@);
        r
    }

    /// Decodes two bits into an operation.
    fn bits_to_operation(x: u64) -> (r: Operation)
        requires
            x < 4,
        ensures
            r == op_of_code(x),
    {
        match x {
            KEEP => Operation::Keep,
            SUBST => Operation::Subst,
            INS => Operation::Insert,
            _ => Operation::Delete,
        }
    }

    /// Operation number `i`.
    pub fn get(&self, i: usize) -> (r: Operation)
        requires
            self.wf(),
            i < self@.len(),
        ensures
            r == self@[i as int],
    {
        let iw = i / PER_WORD;
        let ib = (i % PER_WORD) as u64;
        let w = self.words[iw];
        let x = (w >> (ib * 2)) & 3;
        assert(x < 4) by (bit_vector)
            requires
                x == (w >> (ib * 2)) & 3,
        ;
        Distance::bits_to_operation(x)
    }

    /// The last operation; a script without operations has none.
    pub fn get_last_operation(&self) -> (r: Operation)
        requires
            self.wf(),
            self@.len() > 0,
        ensures
            r == self@.last(),
    {
        self.get(self.len - 1)
    }

    /// Walks the operations from the first on.
    pub fn iter(&self) -> (r: Iterator<'_>)
        requires
            self.wf(),
        ensures
            r.wf(),
            r.ops() == self@,
            r.pos() == 0,
    {
        Iterator { lev: self, i: 0 }
    }
}

/// A cursor over the operations of a `Distance`.
pub struct Iterator<'a> {
    lev: &'a Distance,
    i: usize,
}

impl<'a> Iterator<'a> {
    pub closed spec fn ops(&self) -> Seq<Operation> {
        self.lev@
    }

    pub closed spec fn pos(&self) -> nat {
        self.i as nat
    }

    pub closed spec fn wf(&self) -> bool {
        self.lev.wf()
    }

    /// The operation under the cursor, moving past it; `None` at the end.
    pub fn next(&mut self) -> (r: Option<Operation>)
        requires
            old(self).wf(),
        ensures
            final(self).wf(),
            final(self).ops() == old(self).ops(),
            old(self).pos() < old(self).ops().len() ==> r == Some(old(self).ops()[old(self).pos() as int])
                && final(self).pos() == old(self).pos() + 1,
            old(self).pos() >= old(self).ops().len() ==> r.is_none() && final(self).pos() == old(self).pos(),
    {
        if self.i >= self.lev.len {
            return None;
        }
        let op = self.lev.get(self.i);
        self.i = self.i + 1;
        Some(op)
    }
}


/// 1 where two characters differ, 0 where they are equal.
pub open spec fn differ(x: char, y: char) -> nat {
    if x == y { 0 } else { 1 }
}

pub open spec fn min3(x: nat, y: nat, z: nat) -> nat {
    if x <= y && x <= z { x } else if y <= z { y } else { z }
}

/// The fewest single-character insertions, deletions and substitutions that
/// turn the first `i` characters of `a` into the first `j` characters of `b`.
pub open spec fn ed(a: Seq<char>, b: Seq<char>, i: nat, j: nat) -> nat
    decreases i + j,
{
    if i == 0 {
        j
    } else if j == 0 {
        i
    } else {
        min3(
            ed(a, b, (i - 1) as nat, j) + 1,
            ed(a, b, i, (j - 1) as nat) + 1,
            ed(a, b, (i - 1) as nat, (j - 1) as nat) + differ(a[i - 1], b[j - 1]),
        )
    }
}

/// The edit distance between `a` and `b`.
pub open spec fn edit_distance(a: Seq<char>, b: Seq<char>) -> nat {
    ed(a, b, a.len(), b.len())
}

/// The script that the table computation reports for the first `i` characters
/// of `a` and the first `j` of `b`: of equally cheap last steps, an insertion
/// goes before a deletion, and both go before a keep or substitution.
pub open spec fn script(a: Seq<char>, b: Seq<char>, i: nat, j: nat) -> Seq<Operation>
    decreases i + j,
{
    if i == 0 && j == 0 {
        Seq::empty()
    } else if i == 0 {
        script(a, b, 0, (j - 1) as nat).push(Operation::Insert)
    } else if j == 0 {
        script(a, b, (i - 1) as nat, 0).push(Operation::Delete)
    } else {
        let ins = ed(a, b, i, (j - 1) as nat) + 1;
        let del = ed(a, b, (i - 1) as nat, j) + 1;
        let sub = ed(a, b, (i - 1) as nat, (j - 1) as nat) + differ(a[i - 1], b[j - 1]);
        if ins <= del && ins <= sub {
            script(a, b, i, (j - 1) as nat).push(Operation::Insert)
        } else if del < ins && del <= sub {
            script(a, b, (i - 1) as nat, j).push(Operation::Delete)
        } else if a[i - 1] == b[j - 1] {
            script(a, b, (i - 1) as nat, (j - 1) as nat).push(Operation::Keep)
        } else {
            script(a, b, (i - 1) as nat, (j - 1) as nat).push(Operation::Subst)
        }
    }
}

/// The script that `levenshtein(a, b)` returns.
pub open spec fn edit_script(a: Seq<char>, b: Seq<char>) -> Seq<Operation> {
    script(a, b, a.len(), b.len())
}

/// `ops` turns the first `i` characters of `a` into the first `j` of `b`:
/// read from the end, a `Keep` matches two equal characters, a `Subst` any
/// two, an `Insert` a character of `b` alone and a `Delete` one of `a` alone.
pub open spec fn aligns(ops: Seq<Operation>, a: Seq<char>, b: Seq<char>, i: int, j: int) -> bool
    decreases ops.len(),
{
    if ops.len() == 0 {
        i == 0 && j == 0
    } else {
        let p = ops.drop_last();
        match ops.last() {
            Operation::Keep => 0 < i <= a.len() && 0 < j <= b.len() && a[i - 1] == b[j - 1]
                && aligns(p, a, b, i - 1, j - 1),
            Operation::Subst => 0 < i <= a.len() && 0 < j <= b.len() && aligns(p, a, b, i - 1, j - 1),
            Operation::Insert => 0 < j <= b.len() && aligns(p, a, b, i, j - 1),
            Operation::Delete => 0 < i <= a.len() && aligns(p, a, b, i - 1, j),
        }
    }
}

/// What replaying `ops` on `a` writes: a `Keep` copies the next character of
/// `a`, a `Delete` skips it, an `Insert` writes the next character of `b`, and
/// a `Subst` writes the next character of `b` in place of the next of `a`.
/// `i` and `j` count the characters of `a` and `b` that `ops` consumes.
pub open spec fn replay(ops: Seq<Operation>, a: Seq<char>, b: Seq<char>, i: int, j: int) -> Seq<char>
    decreases ops.len(),
{
    if ops.len() == 0 {
        Seq::empty()
    } else {
        let p = ops.drop_last();
        match ops.last() {
            Operation::Keep => replay(p, a, b, i - 1, j - 1).push(a[i - 1]),
            Operation::Subst => replay(p, a, b, i - 1, j - 1).push(b[j - 1]),
            Operation::Insert => replay(p, a, b, i, j - 1).push(b[j - 1]),
            Operation::Delete => replay(p, a, b, i - 1, j),
        }
    }
}

proof fn lemma_script(a: Seq<char>, b: Seq<char>, i: nat, j: nat)
    requires
        i <= a.len(),
        j <= b.len(),
    ensures
        cost_of(script(a, b, i, j)) == ed(a, b, i, j),
        script(a, b, i, j).len() <= i + j,
        aligns(script(a, b, i, j), a, b, i as int, j as int),
    decreases i + j,
{
    let s = script(a, b, i, j);
    if i == 0 && j == 0 {
    } else if i == 0 {
        lemma_script(a, b, 0, (j - 1) as nat);
        assert(s.drop_last() =~= script(a, b, 0, (j - 1) as nat));
    } else if j == 0 {
        lemma_script(a, b, (i - 1) as nat, 0);
        assert(s.drop_last() =~= script(a, b, (i - 1) as nat, 0));
    } else {
        lemma_script(a, b, i, (j - 1) as nat);
        lemma_script(a, b, (i - 1) as nat, j);
        lemma_script(a, b, (i - 1) as nat, (j - 1) as nat);
        let ins = ed(a, b, i, (j - 1) as nat) + 1;
        let del = ed(a, b, (i - 1) as nat, j) + 1;
        let sub = ed(a, b, (i - 1) as nat, (j - 1) as nat) + differ(a[i - 1], b[j - 1]);
        if ins <= del && ins <= sub {
            assert(s.drop_last() =~= script(a, b, i, (j - 1) as nat));
        } else if del < ins && del <= sub {
            assert(s.drop_last() =~= script(a, b, (i - 1) as nat, j));
        } else {
            assert(s.drop_last() =~= script(a, b, (i - 1) as nat, (j - 1) as nat));
        }
    }
}

/// A script that turns `a` into `b` costs at least their edit distance.
pub proof fn lemma_minimal(ops: Seq<Operation>, a: Seq<char>, b: Seq<char>, i: nat, j: nat)
    requires
        aligns(ops, a, b, i as int, j as int),
    ensures
        cost_of(ops) >= ed(a, b, i, j),
    decreases ops.len(),
{
    if ops.len() > 0 {
        let p = ops.drop_last();
        match ops.last() {
            Operation::Keep | Operation::Subst => {
                lemma_minimal(p, a, b, (i - 1) as nat, (j - 1) as nat);
            },
            Operation::Insert => {
                lemma_minimal(p, a, b, i, (j - 1) as nat);
            },
            Operation::Delete => {
                lemma_minimal(p, a, b, (i - 1) as nat, j);
            },
        }
    }
}

/// Replaying a script that turns a prefix of `a` into a prefix of `b` writes that prefix of `b`.
pub proof fn lemma_replay(ops: Seq<Operation>, a: Seq<char>, b: Seq<char>, i: int, j: int)
    requires
        aligns(ops, a, b, i, j),
    ensures
        replay(ops, a, b, i, j) == b.subrange(0, j),
    decreases ops.len(),
{
    if ops.len() == 0 {
        assert(b.subrange(0, 0) =~= Seq::<char>::empty());
    } else {
        let p = ops.drop_last();
        match ops.last() {
            Operation::Keep | Operation::Subst => {
                lemma_replay(p, a, b, i - 1, j - 1);
                assert(b.subrange(0, j) =~= b.subrange(0, j - 1).push(b[j - 1]));
            },
            Operation::Insert => {
                lemma_replay(p, a, b, i, j - 1);
                assert(b.subrange(0, j) =~= b.subrange(0, j - 1).push(b[j - 1]));
            },
            Operation::Delete => {
                lemma_replay(p, a, b, i - 1, j);
            },
        }
    }
}

/// Minimality, cost, and round trip of the script that `levenshtein` reports:
/// its cost is the number of operations that are not `Keep`, no script from
/// `a` to `b` costs less, and replaying it on `a` writes `b`.
pub proof fn lemma_edit_script(a: Seq<char>, b: Seq<char>)
    ensures
        cost_of(edit_script(a, b)) == edit_distance(a, b),
        aligns(edit_script(a, b), a, b, a.len() as int, b.len() as int),
        replay(edit_script(a, b), a, b, a.len() as int, b.len() as int) == b,
        forall|ops: Seq<Operation>| aligns(ops, a, b, a.len() as int, b.len() as int)
            ==> cost_of(ops) >= #[trigger] edit_distance(a, b),
{
    lemma_script(a, b, a.len(), b.len());
    lemma_replay(edit_script(a, b), a, b, a.len() as int, b.len() as int);
    assert(b.subrange(0, b.len() as int) =~= b);
    assert forall|ops: Seq<Operation>| aligns(ops, a, b, a.len() as int, b.len() as int)
        implies cost_of(ops) >= edit_distance(a, b) by {
        lemma_minimal(ops, a, b, a.len(), b.len());
    }
}

proof fn lemma_ed_symmetric(a: Seq<char>, b: Seq<char>, i: nat, j: nat)
    ensures
        ed(a, b, i, j) == ed(b, a, j, i),
    decreases i + j,
{
    if i > 0 && j > 0 {
        lemma_ed_symmetric(a, b, (i - 1) as nat, j);
        lemma_ed_symmetric(a, b, i, (j - 1) as nat);
        lemma_ed_symmetric(a, b, (i - 1) as nat, (j - 1) as nat);
    }
}

proof fn lemma_ed_self(a: Seq<char>, i: nat)
    ensures
        ed(a, a, i, i) == 0,
    decreases i,
{
    if i > 0 {
        lemma_ed_self(a, (i - 1) as nat);
    }
}

/// The edit distance is symmetric, and zero from a string to itself.
pub proof fn lemma_distance_symmetric(a: Seq<char>, b: Seq<char>)
    ensures
        edit_distance(a, b) == edit_distance(b, a),
        edit_distance(a, a) == 0,
{
    lemma_ed_symmetric(a, b, a.len(), b.len());
    lemma_ed_self(a, a.len());
}

/// The edit distance is at least the difference of the lengths and at most the larger length.
pub proof fn lemma_ed_bounds(a: Seq<char>, b: Seq<char>, i: nat, j: nat)
    ensures
        ed(a, b, i, j) >= i - j,
        ed(a, b, i, j) >= j - i,
        ed(a, b, i, j) <= if i >= j { i } else { j },
    decreases i + j,
{
    if i > 0 && j > 0 {
        lemma_ed_bounds(a, b, (i - 1) as nat, j);
        lemma_ed_bounds(a, b, i, (j - 1) as nat);
        lemma_ed_bounds(a, b, (i - 1) as nat, (j - 1) as nat);
    }
}

proof fn lemma_ed_triangle(a: Seq<char>, b: Seq<char>, c: Seq<char>, i: nat, j: nat, k: nat)
    ensures
        ed(a, c, i, k) <= ed(a, b, i, j) + ed(b, c, j, k),
    decreases i + j + k,
{
    if i == 0 || k == 0 {
        lemma_ed_bounds(a, b, i, j);
        lemma_ed_bounds(b, c, j, k);
    } else if j == 0 {
        lemma_ed_bounds(a, c, i, k);
    } else {
        let i1 = (i - 1) as nat;
        let j1 = (j - 1) as nat;
        let k1 = (k - 1) as nat;
        let ab = ed(a, b, i, j);
        let bc = ed(b, c, j, k);
        if ab == ed(a, b, i1, j) + 1 {
            lemma_ed_triangle(a, b, c, i1, j, k);
        } else if bc == ed(b, c, j, k1) + 1 {
            lemma_ed_triangle(a, b, c, i, j, k1);
        } else if ab == ed(a, b, i, j1) + 1 {
            if bc == ed(b, c, j1, k) + 1 {
                lemma_ed_triangle(a, b, c, i, j1, k);
            } else {
                lemma_ed_triangle(a, b, c, i, j1, k1);
            }
        } else {
            if bc == ed(b, c, j1, k) + 1 {
                lemma_ed_triangle(a, b, c, i1, j1, k);
            } else {
                lemma_ed_triangle(a, b, c, i1, j1, k1);
            }
        }
    }
}

/// The edit distance obeys the triangle inequality.
pub proof fn lemma_distance_triangle(a: Seq<char>, b: Seq<char>, c: Seq<char>)
    ensures
        edit_distance(a, c) <= edit_distance(a, b) + edit_distance(b, c),
{
    lemma_ed_triangle(a, b, c, a.len(), b.len(), c.len());
}

/// Puts `x` at index `i` of `v` and hands back what stood there.
fn replace_at<T>(v: &mut Vec<T>, i: usize, x: T) -> (r: T)
    requires
        i < old(v)@.len(),
    ensures
        final(v)@ == old(v)@.update(i as int, x),
        r == old(v)@[i as int],
{
    v.push(x);
    let r = v.swap_remove(i);
    assert(final(v)@ =~= old(v)@.update(i as int, x));
    r
}

/// `d` is the script, with its cost, for `i` characters of `a` and `j` of `b`.
spec fn cell(d: Distance, a: Seq<char>, b: Seq<char>, i: nat, j: nat) -> bool {
    &&& d.wf()
    &&& d@ == script(a, b, i, j)
    &&& d.distance == ed(a, b, i, j)
    &&& d@.len() <= i + j
}

proof fn lemma_cell(d: Distance, a: Seq<char>, b: Seq<char>, i: nat, j: nat)
    requires
        i <= a.len(),
        j <= b.len(),
        d.wf(),
        d@ == script(a, b, i, j),
    ensures
        cell(d, a, b, i, j),
{
    lemma_script(a, b, i, j);
}

/// The cheapest script from `a` to `b`, by a table over prefixes kept one row at a time.
#[verifier::rlimit(50)]
fn distance_chars(a: &Vec<char>, b: &Vec<char>) -> (r: Distance)
    requires
        a@.len() + b@.len() < usize::MAX,
    ensures
        cell(r, a@, b@, a@.len(), b@.len()),
{
    let m = b.len();
    let mut lev: Vec<Distance> = Vec::new();
    let d0 = Distance::new();
    proof {
        lemma_cell(d0, a@, b@, 0, 0);
    }
    lev.push(d0);
    let mut j: usize = 0;
    while j < m
        invariant
            j <= m,
            m == b@.len(),
            a@.len() + b@.len() < usize::MAX,
            lev@.len() == j + 1,
            forall|k: int| 0 <= k <= j ==> cell(#[trigger] lev@[k], a@, b@, 0, k as nat),
        decreases m - j,
    {
        let next = lev[j].next(Operation::Insert);
        proof {
            lemma_cell(next, a@, b@, 0, (j + 1) as nat);
        }
        lev.push(next);
        j = j + 1;
    }
    let mut i: usize = 0;
    while i < a.len()
        invariant
            i <= a@.len(),
            m == b@.len(),
            a@.len() + b@.len() < usize::MAX,
            lev@.len() == m + 1,
            forall|k: int| 0 <= k <= m ==> cell(#[trigger] lev@[k], a@, b@, i as nat, k as nat),
        decreases a@.len() - i,
    {
        let ca = a[i];
        let new = lev[0].next(Operation::Delete);
        proof {
            lemma_cell(new, a@, b@, (i + 1) as nat, 0);
        }
        let mut lev11 = replace_at(&mut lev, 0, new);
        let mut j: usize = 1;
        while j <= m
            invariant
                1 <= j <= m + 1,
                i < a@.len(),
                ca == a@[i as int],
                m == b@.len(),
                a@.len() + b@.len() < usize::MAX,
                lev@.len() == m + 1,
                forall|k: int| 0 <= k < j ==> cell(#[trigger] lev@[k], a@, b@, (i + 1) as nat, k as nat),
                forall|k: int| j <= k <= m ==> cell(#[trigger] lev@[k], a@, b@, i as nat, k as nat),
                cell(lev11, a@, b@, i as nat, (j - 1) as nat),
            decreases m + 1 - j,
        {
            let cb = b[j - 1];
            let insert = lev[j - 1].next(Operation::Insert);
            let delete = lev[j].next(Operation::Delete);
            let subst = lev11.next(if ca == cb { Operation::Keep } else { Operation::Subst });
            let best = if insert.distance <= delete.distance && insert.distance <= subst.distance {
                insert
            } else if delete.distance <= subst.distance {
                delete
            } else {
                subst
            };
            proof {
                lemma_cell(best, a@, b@, (i + 1) as nat, j as nat);
            }
            lev11 = replace_at(&mut lev, j, best);
            j = j + 1;
        }
        i = i + 1;
    }
    let r = lev.pop().unwrap();
    r
}

/// The cheapest script that turns `a` into `b`, one of possibly several.
pub fn levenshtein(a: &str, b: &str) -> (r: Distance)
    requires
        a@.len() + b@.len() < usize::MAX,
    ensures
        r.wf(),
        r@ == edit_script(a@, b@),
        r.cost() == edit_distance(a@, b@),
        r.cost() == cost_of(r@),
{
    let ac = chars_of(a);
    let bc = chars_of(b);
    distance_chars(&ac, &bc)
}

/// Unicode's White_Space characters, those on which `char::is_whitespace` holds.
pub open spec fn white_space(c: char) -> bool {
    let x = c as u32;
    (0x9 <= x <= 0xd) || x == 0x20 || x == 0x85 || x == 0xa0 || x == 0x1680 || (0x2000 <= x
        <= 0x200a) || x == 0x2028 || x == 0x2029 || x == 0x202f || x == 0x205f || x == 0x3000
}

/// The characters that end a word: white space, and `(`, `)` and `:` where `delims`.
pub open spec fn separates(c: char, delims: bool) -> bool {
    white_space(c) || (delims && (c == '(' || c == ')' || c == ':'))
}

/// The maximal runs of characters of `s` that do not separate, left to right.
pub open spec fn split_by(s: Seq<char>, delims: bool) -> Seq<Seq<char>>
    decreases s.len(),
{
    if s.len() == 0 {
        Seq::empty()
    } else {
        let p = split_by(s.drop_last(), delims);
        let c = s.last();
        if separates(c, delims) {
            p
        } else if s.len() >= 2 && !separates(s[s.len() - 2], delims) {
            p.update(p.len() - 1, p.last().push(c))
        } else {
            p.push(seq![c])
        }
    }
}

/// The words of `s`, split on white space and on `(`, `)` and `:`.
pub open spec fn tokens_of(s: Seq<char>) -> Seq<Seq<char>> {
    split_by(s, true)
}

/// The words of `s`, split on white space alone.
pub open spec fn words_of(s: Seq<char>) -> Seq<Seq<char>> {
    split_by(s, false)
}

fn is_separator(c: char, delims: bool) -> (r: bool)
    ensures
        r == separates(c, delims),
{
    let x = c as u32;
    (0x9 <= x && x <= 0xd) || x == 0x20 || x == 0x85 || x == 0xa0 || x == 0x1680 || (0x2000 <= x
        && x <= 0x200a) || x == 0x2028 || x == 0x2029 || x == 0x202f || x == 0x205f || x == 0x3000
        || (delims && (c == '(' || c == ')' || c == ':'))
}

pub open spec fn views(ts: Seq<Vec<char>>) -> Seq<Seq<char>> {
    ts.map_values(|t: Vec<char>| t@)
}

/// Splits characters into words.
pub fn split_words(s: &Vec<char>, delims: bool) -> (r: Vec<Vec<char>>)
    ensures
        views(r@) == split_by(s@, delims),
{
    let mut toks: Vec<Vec<char>> = Vec::new();
    let mut cur: Vec<char> = Vec::new();
    let mut i: usize = 0;
    while i < s.len()
        invariant
            i <= s@.len(),
            cur@.len() == 0 ==> split_by(s@.subrange(0, i as int), delims) == views(toks@) && (i == 0
                || separates(s@[i - 1], delims)),
            cur@.len() > 0 ==> split_by(s@.subrange(0, i as int), delims) == views(toks@).push(cur@) && i
                > 0 && !separates(s@[i - 1], delims),
        decreases s@.len() - i,
    {
        let c = s[i];
        let ghost pre = s@.subrange(0, i as int);
        let ghost now = s@.subrange(0, i + 1);
        assert(now.drop_last() =~= pre);
        assert(now.last() == c);
        if is_separator(c, delims) {
            if cur.len() > 0 {
                let ghost old_toks = toks@;
                toks.push(cur);
                assert(views(toks@) =~= views(old_toks).push(cur@));
                cur = Vec::new();
            }
        } else {
            let ghost old_cur = cur@;
            let extends = cur.len() > 0;
            cur.push(c);
            if extends {
                assert(now[now.len() - 2] == s@[i - 1]);
                assert(views(toks@).push(old_cur).update(views(toks@).len() as int, cur@) =~= views(
                    toks@,
                ).push(cur@));
            } else {
                assert(cur@ =~= seq![c]);
            }
        }
        i = i + 1;
    }
    assert(s@.subrange(0, s@.len() as int) =~= s@);
    if cur.len() > 0 {
        let ghost old_toks = toks@;
        toks.push(cur);
        assert(views(toks@) =~= views(old_toks).push(cur@));
    }
    toks
}

/// The words of `s`, split on white space and on `(`, `)` and `:`; no word is empty.
pub fn tokenize(s: &str) -> (r: Vec<String>)
    ensures
        r@.len() == tokens_of(s@).len(),
        forall|k: int| 0 <= k < r@.len() ==> #[trigger] r@[k]@ == tokens_of(s@)[k],
{
    let cs = chars_of(s);
    let ws = split_words(&cs, true);
    let mut r: Vec<String> = Vec::new();
    let mut k: usize = 0;
    while k < ws.len()
        invariant
            k <= ws@.len(),
            views(ws@) == tokens_of(s@),
            r@.len() == k,
            forall|q: int| 0 <= q < k ==> #[trigger] r@[q]@ == ws@[q]@,
        decreases ws@.len() - k,
    {
        r.push(crate::text::string_from_chars(&ws[k]));
        k = k + 1;
    }
    r
}

/// The matrix `m` without column `c`.
pub open spec fn remove_col(m: Seq<Seq<int>>, c: int) -> Seq<Seq<int>> {
    m.map_values(|row: Seq<int>| row.remove(c))
}

/// The number of columns of `m`, read off its last row.
pub open spec fn width(m: Seq<Seq<int>>) -> nat {
    if m.len() == 0 {
        0
    } else {
        m.last().len()
    }
}

/// The best total that pairing the last row of `m` with one of its first `k`
/// columns, and the other rows with the other columns one to one, can reach.
pub open spec fn best_cols(m: Seq<Seq<int>>, k: nat) -> int
    decreases m.len(), k,
{
    if m.len() == 0 || k == 0 {
        0
    } else {
        let sub = remove_col(m.drop_last(), k - 1);
        let here = m.last()[k - 1] + best_cols(sub, width(sub));
        let before = best_cols(m, (k - 1) as nat);
        if here > before {
            here
        } else {
            before
        }
    }
}

/// The largest total weight of a one-to-one pairing of the rows of the square
/// matrix `m` with its columns.
pub open spec fn best(m: Seq<Seq<int>>) -> int {
    best_cols(m, width(m))
}

/// Every row of `m` has `width(m)` cells, none negative.
pub open spec fn rect(m: Seq<Seq<int>>) -> bool {
    forall|r: int| 0 <= r < m.len() ==> {
        &&& #[trigger] m[r].len() == width(m)
        &&& forall|c: int| 0 <= c < m[r].len() ==> m[r][c] >= 0
    }
}

/// Each cell of row `r` is at most `caps[r]`.
pub open spec fn capped(m: Seq<Seq<int>>, caps: Seq<nat>) -> bool {
    &&& caps.len() == m.len()
    &&& forall|r: int, c: int| 0 <= r < m.len() && 0 <= c < m[r].len() ==> #[trigger] m[r][c] <= caps[r]
}

pub open spec fn sum(s: Seq<nat>) -> nat
    decreases s.len(),
{
    if s.len() == 0 {
        0
    } else {
        sum(s.drop_last()) + s.last()
    }
}

proof fn lemma_remove_col(m: Seq<Seq<int>>, caps: Seq<nat>, k: nat)
    requires
        m.len() > 0,
        rect(m),
        capped(m, caps),
        k < width(m),
    ensures
        rect(remove_col(m.drop_last(), k as int)),
        capped(remove_col(m.drop_last(), k as int), caps.drop_last()),
        remove_col(m.drop_last(), k as int).len() == m.len() - 1,
{
    let sub = remove_col(m.drop_last(), k as int);
    assert forall|r: int| 0 <= r < sub.len() implies {
        &&& #[trigger] sub[r].len() == width(sub)
        &&& forall|c: int| 0 <= c < sub[r].len() ==> sub[r][c] >= 0
    } by {
        assert(m[r].len() == width(m));
        assert(sub[r] == m[r].remove(k as int));
        assert(sub.last() == m[m.len() - 2].remove(k as int));
        assert(m[m.len() - 2].len() == width(m));
        assert forall|c: int| 0 <= c < sub[r].len() implies sub[r][c] >= 0 by {
            if c < k {
                assert(sub[r][c] == m[r][c]);
            } else {
                assert(sub[r][c] == m[r][c + 1]);
            }
        }
    }
    assert forall|r: int, c: int| 0 <= r < sub.len() && 0 <= c < sub[r].len() implies #[trigger] sub[r][c]
        <= caps.drop_last()[r] by {
        assert(m[r].len() == width(m));
        assert(sub[r] == m[r].remove(k as int));
        if c < k {
            assert(sub[r][c] == m[r][c]);
        } else {
            assert(sub[r][c] == m[r][c + 1]);
        }
    }
}

proof fn lemma_best_bounds(m: Seq<Seq<int>>, caps: Seq<nat>, k: nat)
    requires
        rect(m),
        capped(m, caps),
        k <= width(m),
    ensures
        0 <= best_cols(m, k) <= sum(caps),
    decreases m.len(), k,
{
    if m.len() == 0 || k == 0 {
    } else {
        let sub = remove_col(m.drop_last(), k - 1);
        lemma_remove_col(m, caps, (k - 1) as nat);
        lemma_best_bounds(sub, caps.drop_last(), width(sub));
        lemma_best_bounds(m, caps, (k - 1) as nat);
        assert(m[m.len() - 1].len() == width(m));
        assert(m.last()[k - 1] <= caps[m.len() - 1]);
    }
}

/// The cells of `rows` as integers.
pub open spec fn mview(rows: Seq<Vec<usize>>) -> Seq<Seq<int>> {
    rows.map_values(|v: Vec<usize>| v@.map_values(|x: usize| x as int))
}

/// `row` without its cell `i`.
fn without(row: &Vec<usize>, i: usize) -> (r: Vec<usize>)
    requires
        i < row@.len(),
    ensures
        r@ == row@.remove(i as int),
{
    let mut r: Vec<usize> = Vec::new();
    let mut k: usize = 0;
    while k < row.len()
        invariant
            k <= row@.len(),
            i < row@.len(),
            k <= i ==> r@ == row@.subrange(0, k as int),
            k > i ==> r@ == row@.subrange(0, i as int) + row@.subrange(i + 1, k as int),
        decreases row@.len() - k,
    {
        if k != i {
            r.push(row[k]);
        }
        k = k + 1;
        proof {
            if k > i + 1 {
                assert(r@ =~= row@.subrange(0, i as int) + row@.subrange(i + 1, k as int));
            } else if k == i + 1 {
                assert(r@ =~= row@.subrange(0, i as int) + row@.subrange(i + 1, k as int));
            } else {
                assert(r@ =~= row@.subrange(0, k as int));
            }
        }
    }
    assert(r@ =~= row@.remove(i as int));
    r
}

/// The best total weight of a one-to-one pairing of rows with columns, by
/// trying every column for the last row and the best pairing of the rest.
/// The work grows with the factorial of the number of rows.
fn find_best_word_match(rows: &Vec<Vec<usize>>, Ghost(caps): Ghost<Seq<nat>>) -> (r: usize)
    requires
        rect(mview(rows@)),
        capped(mview(rows@), caps),
        sum(caps) <= usize::MAX,
    ensures
        r == best(mview(rows@)),
    decreases rows@.len(),
{
    let ghost m = mview(rows@);
    let n = rows.len();
    if n == 0 {
        return 0;
    }
    let last = &rows[n - 1];
    let w = last.len();
    assert(m[n - 1].len() == w);
    assert(width(m) == w);
    let mut mx: usize = 0;
    let mut i: usize = 0;
    while i < w
        invariant
            i <= w,
            n == rows@.len(),
            n > 0,
            w == width(m),
            w == last@.len(),
            last == rows@[n - 1],
            m == mview(rows@),
            rect(m),
            capped(m, caps),
            sum(caps) <= usize::MAX,
            mx == best_cols(m, i as nat),
        decreases w - i,
    {
        let mut sub: Vec<Vec<usize>> = Vec::new();
        let mut r: usize = 0;
        let ghost want = remove_col(m.drop_last(), i as int);
        while r < n - 1
            invariant
                r <= n - 1,
                n == rows@.len(),
                i < w,
                m == mview(rows@),
                rect(m),
                w == width(m),
                want == remove_col(m.drop_last(), i as int),
                sub@.len() == r,
                forall|q: int| 0 <= q < r ==> #[trigger] mview(sub@)[q] == want[q],
            decreases n - 1 - r,
        {
            assert(m[r as int].len() == w);
            let row = without(&rows[r], i);
            let ghost old_sub = sub@;
            sub.push(row);
            proof {
                assert(row@.map_values(|x: usize| x as int) =~= m[r as int].remove(i as int));
                assert forall|q: int| 0 <= q < r + 1 implies #[trigger] mview(sub@)[q] == want[q] by {
                    if q < r {
                        assert(sub@[q] == old_sub[q]);
                        assert(mview(old_sub)[q] == want[q]);
                    }
                }
            }
            r = r + 1;
        }
        proof {
            assert(mview(sub@) =~= want);
            lemma_remove_col(m, caps, i as nat);
            lemma_best_bounds(want, caps.drop_last(), width(want));
            lemma_best_bounds(m, caps, (i + 1) as nat);
            assert(m[n - 1][i as int] == last@[i as int]);
            assert(m[n - 1][i as int] <= caps[n - 1]);
        }
        let d2 = find_best_word_match(&sub, Ghost(caps.drop_last()));
        let d = last[i] + d2;
        if d > mx {
            mx = d;
        }
        i = i + 1;
    }
    mx
}

/// How alike two words are: the longer length less their edit distance.
pub open spec fn similarity(x: Seq<char>, y: Seq<char>) -> int {
    (if x.len() >= y.len() { x.len() } else { y.len() }) - edit_distance(x, y)
}

/// The similarity of each word of `ta` to each of `tb`, padded with zeros to a square.
pub open spec fn sim_matrix(ta: Seq<Seq<char>>, tb: Seq<Seq<char>>) -> Seq<Seq<int>> {
    let n = if ta.len() >= tb.len() { ta.len() } else { tb.len() };
    Seq::new(
        n,
        |r: int|
            Seq::new(
                n,
                |c: int|
                    if r < ta.len() && c < tb.len() {
                        similarity(ta[r], tb[c])
                    } else {
                        0
                    },
            ),
    )
}

/// The best total similarity of a one-to-one pairing of the words of `a` with those of `b`.
pub open spec fn best_alignment(a: Seq<char>, b: Seq<char>) -> int {
    best(sim_matrix(tokens_of(a), tokens_of(b)))
}

pub open spec fn lengths(ts: Seq<Seq<char>>) -> Seq<nat> {
    ts.map_values(|t: Seq<char>| t.len())
}

proof fn lemma_sum_update_last(s: Seq<nat>, v: nat)
    requires
        s.len() > 0,
    ensures
        sum(s.update(s.len() - 1, v)) == sum(s) - s.last() + v,
{
    assert(s.update(s.len() - 1, v).drop_last() =~= s.drop_last());
}

proof fn lemma_sum_push(s: Seq<nat>, v: nat)
    ensures
        sum(s.push(v)) == sum(s) + v,
{
    assert(s.push(v).drop_last() =~= s);
}

proof fn lemma_tokens_nonempty(s: Seq<char>, delims: bool)
    requires
        s.len() > 0,
        !separates(s.last(), delims),
    ensures
        split_by(s, delims).len() > 0,
    decreases s.len(),
{
    if s.len() >= 2 && !separates(s[s.len() - 2], delims) {
        lemma_tokens_nonempty(s.drop_last(), delims);
    }
}

proof fn lemma_token_lengths(s: Seq<char>, delims: bool)
    ensures
        sum(lengths(split_by(s, delims))) <= s.len(),
    decreases s.len(),
{
    if s.len() > 0 {
        let p = split_by(s.drop_last(), delims);
        lemma_token_lengths(s.drop_last(), delims);
        let c = s.last();
        if separates(c, delims) {
        } else if s.len() >= 2 && !separates(s[s.len() - 2], delims) {
            let sd = s.drop_last();
            assert(sd.len() > 0 && !separates(sd.last(), delims));
            lemma_tokens_nonempty(sd, delims);
            assert(lengths(p.update(p.len() - 1, p.last().push(c))) =~= lengths(p).update(
                p.len() - 1,
                p.last().len() + 1,
            ));
            lemma_sum_update_last(lengths(p), p.last().len() + 1);
        } else {
            assert(lengths(p.push(seq![c])) =~= lengths(p).push(1));
            lemma_sum_push(lengths(p), 1);
        }
    }
}

proof fn lemma_sum_zeros(s: Seq<nat>, k: nat)
    ensures
        sum(s + Seq::new(k, |q: int| 0nat)) == sum(s),
    decreases k,
{
    if k > 0 {
        assert((s + Seq::new(k, |q: int| 0nat)).drop_last() =~= s + Seq::new(
            (k - 1) as nat,
            |q: int| 0nat,
        ));
        lemma_sum_zeros(s, (k - 1) as nat);
    }
}

proof fn lemma_elem_le_sum(s: Seq<nat>, k: int)
    requires
        0 <= k < s.len(),
    ensures
        s[k] <= sum(s),
    decreases s.len(),
{
    if k < s.len() - 1 {
        lemma_elem_le_sum(s.drop_last(), k);
    }
}

/// The best total similarity of a pairing of the words of `a` with those of
/// `b`, each word used once; words left over count nothing.
pub fn wordwise_levenshtein(a: &str, b: &str) -> (r: usize)
    requires
        a@.len() + b@.len() < usize::MAX,
    ensures
        r == best_alignment(a@, b@),
{
    let ac = chars_of(a);
    let bc = chars_of(b);
    let wa = split_words(&ac, true);
    let wb = split_words(&bc, true);
    let ghost ta = tokens_of(a@);
    let ghost tb = tokens_of(b@);
    let anum = wa.len();
    let bnum = wb.len();
    let n = if anum >= bnum { anum } else { bnum };
    let ghost sim = sim_matrix(ta, tb);
    let ghost caps = lengths(ta) + Seq::new((n - anum) as nat, |q: int| 0nat);
    proof {
        lemma_token_lengths(a@, true);
        lemma_token_lengths(b@, true);
        lemma_sum_zeros(lengths(ta), (n - anum) as nat);
        assert(views(wa@).len() == anum);
    }
    let mut d: Vec<Vec<usize>> = Vec::new();
    let mut r: usize = 0;
    while r < anum
        invariant
            r <= anum <= n,
            bnum <= n,
            n == if anum >= bnum { anum } else { bnum },
            views(wa@) == ta,
            views(wb@) == tb,
            anum == wa@.len(),
            bnum == wb@.len(),
            sim == sim_matrix(ta, tb),
            sum(lengths(ta)) <= a@.len(),
            sum(lengths(tb)) <= b@.len(),
            a@.len() + b@.len() < usize::MAX,
            d@.len() == r,
            forall|q: int| 0 <= q < r ==> #[trigger] mview(d@)[q] == sim[q],
        decreases anum - r,
    {
        let mut row: Vec<usize> = Vec::new();
        let mut c: usize = 0;
        while c < bnum
            invariant
                r < anum <= n,
                c <= bnum <= n,
                views(wa@) == ta,
                views(wb@) == tb,
                anum == wa@.len(),
                bnum == wb@.len(),
                sum(lengths(ta)) <= a@.len(),
                sum(lengths(tb)) <= b@.len(),
                a@.len() + b@.len() < usize::MAX,
                row@.len() == c,
                forall|q: int| 0 <= q < c ==> #[trigger] row@[q] as int == similarity(ta[r as int], tb[q]),
            decreases bnum - c,
        {
            let x = &wa[r];
            let y = &wb[c];
            assert(x@ == ta[r as int]);
            assert(y@ == tb[c as int]);
            proof {
                lemma_elem_le_sum(lengths(ta), r as int);
                lemma_elem_le_sum(lengths(tb), c as int);
                lemma_ed_bounds(x@, y@, x@.len(), y@.len());
            }
            let la = x.len();
            let lb = y.len();
            let dist = distance_chars(x, y);
            let longer = if la >= lb { la } else { lb };
            row.push(longer - dist.distance);
            c = c + 1;
        }
        while c < n
            invariant
                bnum <= c <= n,
                row@.len() == c,
                forall|q: int| 0 <= q < bnum ==> #[trigger] row@[q] as int == similarity(ta[r as int], tb[q]),
                forall|q: int| bnum <= q < c ==> #[trigger] row@[q] == 0,
            decreases n - c,
        {
            row.push(0);
            c = c + 1;
        }
        let ghost old_d = d@;
        d.push(row);
        proof {
            assert(mview(d@)[r as int] =~= sim[r as int]);
            assert forall|q: int| 0 <= q < r + 1 implies #[trigger] mview(d@)[q] == sim[q] by {
                if q < r {
                    assert(mview(old_d)[q] == sim[q]);
                }
            }
        }
        r = r + 1;
    }
    while r < n
        invariant
            anum <= r <= n,
            bnum <= n,
            anum < n ==> bnum == n,
            sim == sim_matrix(ta, tb),
            anum == ta.len(),
            bnum == tb.len(),
            n == sim.len(),
            d@.len() == r,
            forall|q: int| 0 <= q < r ==> #[trigger] mview(d@)[q] == sim[q],
        decreases n - r,
    {
        let mut row: Vec<usize> = Vec::new();
        let mut c: usize = 0;
        while c < bnum
            invariant
                c <= bnum,
                row@.len() == c,
                forall|q: int| 0 <= q < c ==> #[trigger] row@[q] == 0,
            decreases bnum - c,
        {
            row.push(0);
            c = c + 1;
        }
        let ghost old_d = d@;
        d.push(row);
        proof {
            assert(mview(d@)[r as int] =~= sim[r as int]);
            assert forall|q: int| 0 <= q < r + 1 implies #[trigger] mview(d@)[q] == sim[q] by {
                if q < r {
                    assert(mview(old_d)[q] == sim[q]);
                }
            }
        }
        r = r + 1;
    }
    proof {
        assert(mview(d@) =~= sim);
        assert forall|q: int, c: int| 0 <= q < sim.len() && 0 <= c < sim[q].len() implies #[trigger] sim[q][c]
            <= caps[q] && sim[q][c] >= 0 by {
            if q < ta.len() && c < tb.len() {
                lemma_ed_bounds(ta[q], tb[c], ta[q].len(), tb[c].len());
            }
        }
        assert(capped(sim, caps));
        assert(rect(sim)) by {
            if sim.len() > 0 {
                assert(sim.last().len() == n);
            }
        }
    }
    find_best_word_match(&d, Ghost(caps))
}

proof fn lemma_align_self_tokens(t: Seq<Seq<char>>)
    ensures
        best(sim_matrix(t, t)) >= sum(lengths(t)),
    decreases t.len(),
{
    let m = sim_matrix(t, t);
    let n = t.len();
    if n > 0 {
        let tp = t.drop_last();
        let sub = remove_col(m.drop_last(), n - 1);
        assert(sub =~~= sim_matrix(tp, tp));
        lemma_align_self_tokens(tp);
        lemma_ed_self(t[n - 1], t[n - 1].len());
        assert(m.last()[n - 1] == similarity(t[n - 1], t[n - 1]));
        assert(lengths(t).drop_last() =~= lengths(tp));
        assert(width(m) == n);
    }
}

/// Aligning a string with itself pairs each word with itself: the score is
/// the total length of its words.
pub proof fn lemma_align_self(a: Seq<char>)
    ensures
        best_alignment(a, a) == sum(lengths(tokens_of(a))),
{
    let t = tokens_of(a);
    let m = sim_matrix(t, t);
    lemma_align_self_tokens(t);
    assert forall|r: int, c: int| 0 <= r < m.len() && 0 <= c < m[r].len() implies #[trigger] m[r][c]
        <= lengths(t)[r] && m[r][c] >= 0 by {
        lemma_ed_bounds(t[r], t[c], t[r].len(), t[c].len());
    }
    assert(rect(m)) by {
        if m.len() > 0 {
            assert(m.last().len() == t.len());
        }
    }
    lemma_best_bounds(m, lengths(t), width(m));
}

/// Both results are functions of the inputs alone: equal inputs give equal
/// scripts and equal scores.
pub proof fn lemma_deterministic(a1: Seq<char>, b1: Seq<char>, a2: Seq<char>, b2: Seq<char>)
    requires
        a1 == a2,
        b1 == b2,
    ensures
        edit_script(a1, b1) == edit_script(a2, b2),
        edit_distance(a1, b1) == edit_distance(a2, b2),
        best_alignment(a1, b1) == best_alignment(a2, b2),
{
}

/// The character that a trace shows for an operation.
pub open spec fn symbol(op: Operation) -> char {
    match op {
        Operation::Keep => '=',
        Operation::Subst => '!',
        Operation::Insert => '+',
        Operation::Delete => '-',
    }
}

impl Distance {
    /// The operations, in order.
    pub fn ops(&self) -> (r: Vec<Operation>)
        requires
            self.wf(),
        ensures
            r@ == self@,
    {
        let mut it = self.iter();
        let mut r: Vec<Operation> = Vec::new();
        while r.len() < self.len
            invariant
                it.wf(),
                it.ops() == self@,
                it.pos() == r@.len(),
                r@ == self@.subrange(0, r@.len() as int),
                r@.len() <= self@.len(),
            decreases self@.len() - r@.len(),
        {
            let op = it.next();
            r.push(op.unwrap());
        }
        assert(r@ =~= self@);
        r
    }

    /// The operations as a line of `=` (keep), `!` (substitute), `+` (insert) and `-` (delete).
    pub fn trace(&self) -> (r: String)
        requires
            self.wf(),
        ensures
            r@ == self@.map_values(|op: Operation| symbol(op)),
    {
        let mut cs: Vec<char> = Vec::new();
        let mut k: usize = 0;
        while k < self.len
            invariant
                self.wf(),
                k <= self@.len(),
                cs@ == self@.subrange(0, k as int).map_values(|op: Operation| symbol(op)),
            decreases self@.len() - k,
        {
            let c = match self.get(k) {
                Operation::Keep => '=',
                Operation::Subst => '!',
                Operation::Insert => '+',
                Operation::Delete => '-',
            };
            cs.push(c);
            k = k + 1;
            assert(cs@ =~= self@.subrange(0, k as int).map_values(|op: Operation| symbol(op)));
        }
        assert(self@.subrange(0, self@.len() as int) =~= self@);
        crate::text::string_from_chars(&cs)
    }

    /// Orders two scripts by cost alone; scripts of equal cost compare `Equal`
    /// even where their operations differ.
    pub fn cmp(&self, other: &Distance) -> (r: core::cmp::Ordering)
        ensures
            r == core::cmp::Ordering::Less <==> self.cost() < other.cost(),
            r == core::cmp::Ordering::Equal <==> self.cost() == other.cost(),
            r == core::cmp::Ordering::Greater <==> self.cost() > other.cost(),
    {
        if self.distance < other.distance {
            core::cmp::Ordering::Less
        } else if self.distance > other.distance {
            core::cmp::Ordering::Greater
        } else {
            core::cmp::Ordering::Equal
        }
    }

    /// Same cost, same length and same packed operations.
    pub closed spec fn same(&self, other: &Distance) -> bool {
        &&& self.distance == other.distance
        &&& self.len == other.len
        &&& self.words@ == other.words@
    }

    /// Equal scripts have equal costs and equal operations.
    pub proof fn lemma_same(&self, other: &Distance)
        requires
            self.same(other),
        ensures
            self.cost() == other.cost(),
            self@ == other@,
    {
        assert(self@ =~= other@);
    }
}

impl PartialEq for Distance {
    fn eq(&self, other: &Distance) -> (r: bool) {
        if self.distance != other.distance || self.len != other.len || self.words.len()
            != other.words.len() {
            return false;
        }
        let mut k: usize = 0;
        while k < self.words.len()
            invariant
                k <= self.words@.len(),
                self.words@.len() == other.words@.len(),
                self.words@.subrange(0, k as int) == other.words@.subrange(0, k as int),
            decreases self.words@.len() - k,
        {
            if self.words[k] != other.words[k] {
                assert(self.words@.subrange(0, k + 1)[k as int] != other.words@.subrange(0, k + 1)[k as int]);
                return false;
            }
            k = k + 1;
            assert(self.words@.subrange(0, k as int) =~= other.words@.subrange(0, k as int));
        }
        assert(self.words@ =~= self.words@.subrange(0, k as int));
        assert(other.words@ =~= other.words@.subrange(0, k as int));
        true
    }
}

impl vstd::std_specs::cmp::PartialEqSpecImpl for Distance {
    open spec fn obeys_eq_spec() -> bool {
        true
    }

    open spec fn eq_spec(&self, other: &Distance) -> bool {
        self.same(other)
    }
}

} // verus!
