//! Terms of a Boolean function and their minimisation by merging.

use std::collections::HashSet;
use vstd::prelude::*;
use vstd::std_specs::cmp::PartialEqSpecImpl;
use crate::text::{ascending, sort_strings, texts};

verus! {

broadcast use vstd::std_specs::hash::group_hash_axioms;

/// The model of a term: one entry per variable, 0 for the negated variable,
/// -1 for a variable that the term leaves out, anything else for the plain
/// variable.
pub type Cube = Seq<i8>;

/// The byte `b` read as a signed number.
pub open spec fn signed(b: u8) -> i8 {
    if b < 128 {
        b as i8
    } else {
        (b - 256) as i8
    }
}

/// The bytes `raw` read as signed numbers.
pub open spec fn cube_of(raw: Seq<u8>) -> Cube {
    Seq::new(raw.len(), |i: int| signed(raw[i]))
}

/// In how many of the first `upto` places `a` and `b` differ.
pub open spec fn differences(a: Cube, b: Cube, upto: int) -> nat
    decreases upto,
{
    if upto <= 0 {
        0
    } else {
        differences(a, b, upto - 1) + if a[upto - 1] != b[upto - 1] {
            1nat
        } else {
            0nat
        }
    }
}

/// `a` with the places left out in which it differs from `b`.
pub open spec fn merged(a: Cube, b: Cube) -> Cube {
    Seq::new(a.len(), |i: int| if a[i] != b[i] { -1i8 } else { a[i] })
}

/// The term that covers both `a` and `b`, where they differ in exactly one
/// place.
pub open spec fn combined(a: Cube, b: Cube) -> Option<Cube> {
    if differences(a, b, a.len() as int) == 1 {
        Some(merged(a, b))
    } else {
        None
    }
}

/// The text of one entry: nothing for a variable left out, the name after an
/// exclamation mark for a negated variable, the name otherwise.
pub open spec fn literal_text(bit: i8, name: Seq<char>) -> Seq<char> {
    if bit == -1 {
        Seq::empty()
    } else if bit == 0 {
        seq!['!'] + name
    } else {
        name
    }
}

/// The texts of the first `upto` entries of `bits`, one after the other.
pub open spec fn product_text(bits: Cube, names: Seq<Seq<char>>, upto: int) -> Seq<char>
    decreases upto,
{
    if upto <= 0 {
        Seq::empty()
    } else {
        product_text(bits, names, upto - 1) + literal_text(bits[upto - 1], names[upto - 1])
    }
}

/// The text of the term without variables.
pub open spec fn truth_text() -> Seq<char> {
    seq!['1', ' ', '(', 'T', 'R', 'U', 'E', ')']
}

/// The text of a term: its entries one after the other, or the text of the
/// term without variables where that is empty.
pub open spec fn term_text(bits: Cube, names: Seq<Seq<char>>) -> Seq<char> {
    if product_text(bits, names, bits.len() as int).len() == 0 {
        truth_text()
    } else {
        product_text(bits, names, bits.len() as int)
    }
}

/// Every entry of `bits` that names a variable has a name in `names`.
pub open spec fn names_cover(bits: Cube, names: Seq<Seq<char>>) -> bool {
    forall|i: int| 0 <= i < bits.len() && bits[i] != -1 ==> i < names.len()
}

/// A product term.
#[derive(Debug, Hash)]
pub struct Term {
    pub bits: Vec<i8>,
    pub used: bool,
}

impl Clone for Term {
    fn clone(&self) -> (r: Self)
        ensures
            r.bits@ == self.bits@,
            r.used == self.used,
    {
        let mut bits: Vec<i8> = Vec::new();
        let mut i: usize = 0;
        while i < self.bits.len()
            invariant
                i <= self.bits.len(),
                bits@ == self.bits@.take(i as int),
            decreases self.bits.len() - i,
        {
            bits.push(self.bits[i]);
            i += 1;
            assert(bits@ =~= self.bits@.take(i as int));
        }
        assert(self.bits@.take(i as int) =~= self.bits@);
        Term { bits, used: self.used }
    }
}

impl PartialEq for Term {
    fn eq(&self, other: &Term) -> (r: bool) {
        self.used == other.used && self.same_bits(other)
    }
}

impl PartialEqSpecImpl for Term {
    open spec fn obeys_eq_spec() -> bool {
        true
    }

    open spec fn eq_spec(&self, other: &Term) -> bool {
        self.used == other.used && self.bits@ == other.bits@
    }
}

impl Eq for Term {

}

impl Term {
    /// Whether the two terms have the same entries.
    pub fn same_bits(&self, other: &Term) -> (r: bool)
        ensures
            r == (self.bits@ == other.bits@),
    {
        if self.bits.len() != other.bits.len() {
            return false;
        }
        let mut i: usize = 0;
        while i < self.bits.len()
            invariant
                i <= self.bits.len(),
                self.bits.len() == other.bits.len(),
                forall|k: int| 0 <= k < i ==> self.bits[k] == other.bits[k],
            decreases self.bits.len() - i,
        {
            if self.bits[i] != other.bits[i] {
                return false;
            }
            i += 1;
        }
        assert(self.bits@ =~= other.bits@);
        true
    }

    /// The term of a row of bits.
    pub fn new(raw_bits: &[u8]) -> (t: Term)
        ensures
            t.bits@ == cube_of(raw_bits@),
            !t.used,
    {
        let mut bits: Vec<i8> = Vec::new();
        let mut i: usize = 0;
        while i < raw_bits.len()
            invariant
                i <= raw_bits.len(),
                bits.len() == i,
                forall|k: int| 0 <= k < i ==> bits[k] == signed(raw_bits[k]),
            decreases raw_bits.len() - i,
        {
            let b = raw_bits[i];
            let s: i8 = if b < 128 {
                b as i8
            } else {
                i8::MIN + ((b - 128) as i8)
            };
            bits.push(s);
            i += 1;
        }
        assert(bits@ =~= cube_of(raw_bits@));
        Term { bits, used: false }
    }

    /// The term as a product of variables, `!` before a negated one.
    pub fn to_string(&self, var_names: &[String]) -> (s: String)
        requires
            names_cover(self.bits@, texts(var_names@)),
        ensures
            s@ == term_text(self.bits@, texts(var_names@)),
    {
        let ghost names = texts(var_names@);
        let mut s = String::new();
        let mut i: usize = 0;
        while i < self.bits.len()
            invariant
                i <= self.bits.len(),
                names == texts(var_names@),
                names_cover(self.bits@, names),
                s@ == product_text(self.bits@, names, i as int),
            decreases self.bits.len() - i,
        {
            let b = self.bits[i];
            if b != -1 {
                assert(i < var_names.len());
                if b == 0 {
                    proof {
                        reveal_strlit("!");
                    }
                    s.append("!");
                }
                s.append(var_names[i].as_str());
            }
            assert(s@ =~= product_text(self.bits@, names, i as int) + literal_text(
                b,
                names[i as int],
            ));
            i += 1;
        }
        if s.as_str().unicode_len() == 0 {
            proof {
                reveal_strlit("1 (TRUE)");
            }
            let t = String::from_str("1 (TRUE)");
            assert(t@ =~= truth_text());
            t
        } else {
            s
        }
    }

    /// The term that covers both `self` and `other`, where the two differ in
    /// exactly one place.
    pub fn combine(&self, other: &Term) -> (r: Option<Term>)
        requires
            self.bits.len() <= other.bits.len(),
        ensures
            match r {
                Some(t) => combined(self.bits@, other.bits@) == Some(t.bits@) && !t.used,
                None => combined(self.bits@, other.bits@) is None,
            },
    {
        let n = self.bits.len();
        let mut diff_count: usize = 0;
        let mut new_bits: Vec<i8> = Vec::new();
        let mut i: usize = 0;
        while i < n
            invariant
                i <= n,
                n == self.bits.len(),
                n <= other.bits.len(),
                diff_count == differences(self.bits@, other.bits@, i as int),
                diff_count <= i,
                new_bits.len() == i,
                forall|k: int| 0 <= k < i ==> new_bits[k] == merged(self.bits@, other.bits@)[k],
            decreases n - i,
        {
            if self.bits[i] != other.bits[i] {
                diff_count += 1;
                new_bits.push(-1);
            } else {
                new_bits.push(self.bits[i]);
            }
            i += 1;
        }
        if diff_count == 1 {
            assert(new_bits@ =~= merged(self.bits@, other.bits@));
            Some(Term { bits: new_bits, used: false })
        } else {
            None
        }
    }
}

/// The cell of a row of bits in a diagram: the bits read as a binary number,
/// first bit highest.
pub open spec fn cell_index(bits: Seq<u8>) -> usize
    decreases bits.len(),
{
    if bits.len() == 0 {
        0
    } else {
        (cell_index(bits.drop_last()) << 1) | (bits.last() as usize)
    }
}

/// The rows of bits that `rows` holds.
pub open spec fn row_views(rows: Seq<Vec<u8>>) -> Seq<Seq<u8>> {
    Seq::new(rows.len(), |k: int| rows[k]@)
}

/// The cells of the rows `rows`.
pub open spec fn cell_set(rows: Seq<Seq<u8>>) -> Set<usize> {
    Set::new(|idx: usize| exists|k: int| 0 <= k < rows.len() && cell_index(#[trigger] rows[k]) == idx)
}

/// The order in which a diagram lists two bits: neighbours differ in one bit.
pub open spec fn gray4() -> Seq<usize> {
    seq![0usize, 1, 3, 2]
}

/// The order in which a diagram lists three bits.
pub open spec fn gray8() -> Seq<usize> {
    seq![0usize, 1, 3, 2, 6, 7, 5, 4]
}

/// The model of a diagram: the codes of its rows and of its columns, and how
/// many cells a row code stands for.
pub ghost struct Layout {
    pub rows: Seq<usize>,
    pub cols: Seq<usize>,
    pub width: usize,
}

/// The diagram of a function of `n` variables; there is one for one to five
/// variables.
pub open spec fn layout_of(n: nat) -> Option<Layout> {
    if n == 1 {
        Some(Layout { rows: seq![0usize], cols: seq![0usize, 1], width: 2 })
    } else if n == 2 {
        Some(Layout { rows: seq![0usize, 1], cols: seq![0usize, 1], width: 2 })
    } else if n == 3 {
        Some(Layout { rows: seq![0usize, 1], cols: gray4(), width: 4 })
    } else if n == 4 {
        Some(Layout { rows: gray4(), cols: gray4(), width: 4 })
    } else if n == 5 {
        Some(Layout { rows: gray4(), cols: gray8(), width: 8 })
    } else {
        None
    }
}

/// A diagram with its cells filled in: `cells[i][j]` says whether the
/// function is 1 in the cell of row code `rows[i]` and column code `cols[j]`.
#[derive(Debug)]
pub struct Diagram {
    pub rows: Vec<usize>,
    pub cols: Vec<usize>,
    pub cells: Vec<Vec<bool>>,
}

impl Diagram {
    /// The diagram has the layout `l` and its cells are those of `set`.
    pub open spec fn shows(&self, l: Layout, set: Set<usize>) -> bool {
        &&& self.rows@ == l.rows
        &&& self.cols@ == l.cols
        &&& self.cells.len() == l.rows.len()
        &&& forall|i: int|
            0 <= i < l.rows.len() ==> (#[trigger] self.cells[i]).len() == l.cols.len()
        &&& forall|i: int, j: int|
            0 <= i < l.rows.len() && 0 <= j < l.cols.len() ==> #[trigger] self.cells[i][j]
                == set.contains((l.rows[i] * l.width + l.cols[j]) as usize)
    }
}

/// A Boolean function given by the rows of its truth table on which it is 1.
pub struct BooleanFunction {
    pub var_names: Vec<String>,
    pub minterms: Vec<Vec<u8>>,
    /// The cells on which the function was 1 when it was made.
    pub minterm_indices: HashSet<usize>,
}

impl BooleanFunction {
    /// The cells on which the function was 1 when it was made.
    pub open spec fn cells(&self) -> Set<usize> {
        self.minterm_indices@
    }

    /// The names of the variables.
    pub open spec fn names(&self) -> Seq<Seq<char>> {
        texts(self.var_names@)
    }

    /// The rows on which the function is 1.
    pub open spec fn rows(&self) -> Seq<Seq<u8>> {
        row_views(self.minterms@)
    }

    /// The function of the variables `names` that is 1 on the rows `minterms`.
    pub fn new(names: Vec<String>, minterms: Vec<Vec<u8>>) -> (f: BooleanFunction)
        ensures
            f.var_names == names,
            f.minterms == minterms,
            f.cells() == cell_set(row_views(minterms@)),
    {
        let ghost all = row_views(minterms@);
        let mut indices: HashSet<usize> = HashSet::new();
        let mut k: usize = 0;
        while k < minterms.len()
            invariant
                k <= minterms.len(),
                all == row_views(minterms@),
                indices@ == cell_set(all.take(k as int)),
            decreases minterms.len() - k,
        {
            let bits = &minterms[k];
            let mut idx: usize = 0;
            let mut i: usize = 0;
            while i < bits.len()
                invariant
                    i <= bits.len(),
                    idx == cell_index(bits@.take(i as int)),
                decreases bits.len() - i,
            {
                proof {
                    let next = bits@.take(i + 1);
                    assert(next.drop_last() =~= bits@.take(i as int));
                    assert(next.last() == bits@[i as int]);
                }
                idx = (idx << 1) | (bits[i] as usize);
                i += 1;
            }
            assert(bits@.take(i as int) =~= bits@);
            indices.insert(idx);
            proof {
                let before = all.take(k as int);
                let after = all.take(k + 1);
                assert(after[k as int] == minterms@[k as int]@);
                assert forall|c: usize| #[trigger]
                    indices@.contains(c) <==> cell_set(after).contains(c) by {
                    if cell_set(before).contains(c) {
                        let w = choose|w: int|
                            0 <= w < before.len() && cell_index(#[trigger] before[w]) == c;
                        assert(after[w] == before[w]);
                    }
                    if cell_set(after).contains(c) {
                        let w = choose|w: int|
                            0 <= w < after.len() && cell_index(#[trigger] after[w]) == c;
                        if w < k {
                            assert(before[w] == after[w]);
                        }
                    }
                }
                assert(indices@ =~= cell_set(after));
            }
            k += 1;
        }
        assert(all.take(k as int) =~= all);
        BooleanFunction { var_names: names, minterms, minterm_indices: indices }
    }

    /// Whether the function is 1 in the cell `idx`.
    pub fn is_set(&self, idx: usize) -> (r: bool)
        ensures
            r == self.cells().contains(idx),
    {
        self.minterm_indices.contains(&idx)
    }

    /// One row of a diagram: for each column code, whether the function is 1
    /// in the cell of `row` and that column.
    fn row_cells(&self, row: usize, cols: &Vec<usize>, width: usize) -> (r: Vec<bool>)
        requires
            row < 4,
            width <= 8,
            forall|j: int| 0 <= j < cols.len() ==> cols[j] < 8,
        ensures
            r.len() == cols.len(),
            forall|j: int|
                0 <= j < cols.len() ==> #[trigger] r[j] == self.cells().contains(
                    (row * width + cols[j]) as usize,
                ),
    {
        let mut out: Vec<bool> = Vec::new();
        let mut j: usize = 0;
        while j < cols.len()
            invariant
                j <= cols.len(),
                row < 4,
                width <= 8,
                forall|q: int| 0 <= q < cols.len() ==> cols[q] < 8,
                out.len() == j,
                forall|q: int|
                    0 <= q < j ==> #[trigger] out[q] == self.cells().contains(
                        (row * width + cols[q]) as usize,
                    ),
            decreases cols.len() - j,
        {
            assert(row * width <= 32) by (nonlinear_arith)
                requires
                    row < 4,
                    width <= 8,
            ;
            out.push(self.is_set(row * width + cols[j]));
            j += 1;
        }
        out
    }

    /// The diagram of the function, where it has one to five variables.
    pub fn diagram(&self) -> (r: Option<Diagram>)
        ensures
            match r {
                Some(d) => layout_of(self.names().len()) matches Some(l) && d.shows(
                    l,
                    self.cells(),
                ),
                None => layout_of(self.names().len()) is None,
            },
    {
        let n = self.var_names.len();
        if n < 1 || n > 5 {
            return None;
        }
        let rows: Vec<usize> = if n == 1 {
            vec![0]
        } else if n <= 3 {
            vec![0, 1]
        } else {
            vec![0, 1, 3, 2]
        };
        let cols: Vec<usize> = if n <= 2 {
            vec![0, 1]
        } else if n <= 4 {
            vec![0, 1, 3, 2]
        } else {
            vec![0, 1, 3, 2, 6, 7, 5, 4]
        };
        let width: usize = if n <= 2 {
            2
        } else if n <= 4 {
            4
        } else {
            8
        };
        let ghost l = layout_of(n as nat)->Some_0;
        assert(rows@ =~= l.rows);
        assert(cols@ =~= l.cols);
        assert(width == l.width);
        let mut cells: Vec<Vec<bool>> = Vec::new();
        let mut i: usize = 0;
        while i < rows.len()
            invariant
                i <= rows.len(),
                rows@ == l.rows,
                cols@ == l.cols,
                width == l.width,
                width <= 8,
                forall|q: int| 0 <= q < rows.len() ==> rows[q] < 4,
                forall|q: int| 0 <= q < cols.len() ==> cols[q] < 8,
                cells.len() == i,
                forall|a: int| 0 <= a < i ==> (#[trigger] cells[a]).len() == cols.len(),
                forall|a: int, b: int|
                    0 <= a < i && 0 <= b < cols.len() ==> #[trigger] cells[a][b]
                        == self.cells().contains((rows[a] * width + cols[b]) as usize),
            decreases rows.len() - i,
        {
            let row = self.row_cells(rows[i], &cols, width);
            cells.push(row);
            i += 1;
        }
        Some(Diagram { rows, cols, cells })
    }
}

/// How many of the first `upto` entries of `c` leave their variable out.
pub open spec fn dashes(c: Cube, upto: int) -> nat
    decreases upto,
{
    if upto <= 0 {
        0
    } else {
        dashes(c, upto - 1) + if c[upto - 1] == -1 {
            1nat
        } else {
            0nat
        }
    }
}

/// The terms that merging two members of `ts` gives.
pub open spec fn next_round(ts: Set<Cube>) -> Set<Cube> {
    Set::new(
        |c: Cube|
            exists|a: Cube, b: Cube|
                #![trigger combined(a, b)]
                ts.contains(a) && ts.contains(b) && combined(a, b) == Some(c),
    )
}

/// `a` merges with some member of `ts`.
pub open spec fn merges(ts: Set<Cube>, a: Cube) -> bool {
    exists|b: Cube|
        #![trigger ts.contains(b)]
        ts.contains(b) && (combined(a, b) is Some || combined(b, a) is Some)
}

/// The members of `ts` that merge with no member.
pub open spec fn unmerged(ts: Set<Cube>) -> Set<Cube> {
    Set::new(|a: Cube| ts.contains(a) && !merges(ts, a))
}

/// The terms after `k` rounds of merging, starting from `ts`.
pub open spec fn nth_round(ts: Set<Cube>, k: nat) -> Set<Cube>
    decreases k,
{
    if k == 0 {
        ts
    } else {
        next_round(nth_round(ts, (k - 1) as nat))
    }
}

/// The terms left unmerged in one of the first `k` rounds.
pub open spec fn primes_before(ts: Set<Cube>, k: nat) -> Set<Cube> {
    Set::new(|c: Cube| exists|j: nat| j < k && #[trigger] unmerged(nth_round(ts, j)).contains(c))
}

/// The prime implicants of `ts`: the terms left unmerged in some round.
pub open spec fn prime_cubes(ts: Set<Cube>) -> Set<Cube> {
    Set::new(|c: Cube| exists|j: nat| #[trigger] unmerged(nth_round(ts, j)).contains(c))
}

/// The terms of the rows `rows`.
pub open spec fn minterm_cubes(rows: Seq<Seq<u8>>) -> Set<Cube> {
    Set::new(|c: Cube| exists|k: int| 0 <= k < rows.len() && cube_of(#[trigger] rows[k]) == c)
}

/// The entries of the terms `ts`, in order.
pub open spec fn cubes(ts: Seq<Term>) -> Seq<Cube> {
    Seq::new(ts.len(), |i: int| ts[i].bits@)
}

/// Every term of `ts` has `len` entries and is not marked used.
pub open spec fn plain(ts: Seq<Term>, len: nat) -> bool {
    forall|i: int| 0 <= i < ts.len() ==> (#[trigger] ts[i]).bits.len() == len && !ts[i].used
}

/// A term differs from itself nowhere.
pub proof fn lemma_differences_self(a: Cube, upto: int)
    ensures
        differences(a, a, upto) == 0,
    decreases upto,
{
    if upto > 0 {
        lemma_differences_self(a, upto - 1);
    }
}

/// Two terms differ in the same places whichever is named first.
pub proof fn lemma_differences_symmetric(a: Cube, b: Cube, upto: int)
    ensures
        differences(a, b, upto) == differences(b, a, upto),
    decreases upto,
{
    if upto > 0 {
        lemma_differences_symmetric(a, b, upto - 1);
    }
}

/// Merging two terms of one length does not depend on their order.
pub proof fn lemma_combined_symmetric(a: Cube, b: Cube)
    requires
        a.len() == b.len(),
    ensures
        combined(a, b) == combined(b, a),
{
    lemma_differences_symmetric(a, b, a.len() as int);
    assert(merged(a, b) =~= merged(b, a));
}

/// A term leaves out at most as many variables as it has entries.
pub proof fn lemma_dashes_bound(c: Cube, upto: int)
    requires
        0 <= upto,
    ensures
        dashes(c, upto) <= upto,
    decreases upto,
{
    if upto > 0 {
        lemma_dashes_bound(c, upto - 1);
    }
}

proof fn lemma_merge_dashes_upto(a: Cube, b: Cube, upto: int)
    requires
        a.len() == b.len(),
        0 <= upto <= a.len(),
    ensures
        dashes(merged(a, b), upto) >= dashes(a, upto),
        dashes(merged(a, b), upto) >= dashes(b, upto),
        differences(a, b, upto) >= 1 ==> dashes(merged(a, b), upto) > dashes(a, upto) || dashes(
            merged(a, b),
            upto,
        ) > dashes(b, upto),
    decreases upto,
{
    if upto > 0 {
        lemma_merge_dashes_upto(a, b, upto - 1);
        assert(merged(a, b)[upto - 1] == if a[upto - 1] != b[upto - 1] {
            -1i8
        } else {
            a[upto - 1]
        });
    }
}

/// A merged term leaves out more variables than one of the two it came from.
pub proof fn lemma_merge_adds_dash(a: Cube, b: Cube, least: nat)
    requires
        a.len() == b.len(),
        combined(a, b) is Some,
        dashes(a, a.len() as int) >= least,
        dashes(b, b.len() as int) >= least,
    ensures
        combined(a, b)->0.len() == a.len(),
        dashes(combined(a, b)->0, a.len() as int) >= least + 1,
{
    lemma_merge_dashes_upto(a, b, a.len() as int);
}

/// Nothing merges in an empty set, and nothing is left of it.
pub proof fn lemma_rounds_stay_empty(ts: Set<Cube>, j: nat, k: nat)
    requires
        j <= k,
        nth_round(ts, j) == Set::<Cube>::empty(),
    ensures
        nth_round(ts, k) == Set::<Cube>::empty(),
        unmerged(nth_round(ts, k)) == Set::<Cube>::empty(),
    decreases k,
{
    if j < k {
        lemma_rounds_stay_empty(ts, j, (k - 1) as nat);
        assert(next_round(Set::<Cube>::empty()) =~= Set::<Cube>::empty());
    }
    assert(unmerged(Set::<Cube>::empty()) =~= Set::<Cube>::empty());
}

/// Whether some term of `ts` has the entries of `t`.
fn holds(ts: &Vec<Term>, t: &Term) -> (r: bool)
    ensures
        r == cubes(ts@).contains(t.bits@),
{
    let mut i: usize = 0;
    while i < ts.len()
        invariant
            i <= ts.len(),
            forall|k: int| 0 <= k < i ==> cubes(ts@)[k] != t.bits@,
        decreases ts.len() - i,
    {
        if ts[i].same_bits(t) {
            assert(cubes(ts@)[i as int] == t.bits@);
            return true;
        }
        i += 1;
    }
    false
}

/// Appends `t` to `ts` unless a term with its entries is there already.
fn insert_unique(ts: &mut Vec<Term>, t: Term)
    ensures
        final(ts)@ == if cubes(old(ts)@).contains(t.bits@) {
            old(ts)@
        } else {
            old(ts)@.push(t)
        },
{
    if !holds(ts, &t) {
        ts.push(t);
    }
}

/// What is in `ts` after `t` was appended to it unless it was there.
proof fn lemma_insert_unique(before: Seq<Term>, t: Term, after: Seq<Term>, len: nat)
    requires
        after == if cubes(before).contains(t.bits@) {
            before
        } else {
            before.push(t)
        },
        cubes(before).no_duplicates(),
        plain(before, len),
        t.bits.len() == len,
        !t.used,
    ensures
        cubes(after).no_duplicates(),
        plain(after, len),
        forall|c: Cube| cubes(after).contains(c) <==> cubes(before).contains(c) || c == t.bits@,
{
    if !cubes(before).contains(t.bits@) {
        assert(cubes(after) =~= cubes(before).push(t.bits@));
        assert forall|c: Cube| cubes(after).contains(c) <==> cubes(before).contains(c) || c
            == t.bits@ by {
            if cubes(before).contains(c) {
                let w = choose|w: int| 0 <= w < cubes(before).len() && cubes(before)[w] == c;
                assert(cubes(after)[w] == c);
            }
            if c == t.bits@ {
                assert(cubes(after)[before.len() as int] == c);
            }
        }
    }
}

/// The pair of positions `a < b` comes before the pair `(i, j)` in the order
/// in which a round looks at pairs.
pub open spec fn seen(i: int, j: int, a: int, b: int) -> bool {
    0 <= a < b && (a < i || (a == i && b < j))
}

/// The position `x` is among `used`.
pub open spec fn taken(used: Set<usize>, x: int) -> bool {
    0 <= x <= usize::MAX && used.contains(x as usize)
}

/// One round of merging over `terms`: the terms that merging two of them
/// gives, each once, and which of `terms` took part in a merge.
fn merge_pairs(terms: &Vec<Term>, len: usize) -> (r: (Vec<Term>, HashSet<usize>))
    requires
        plain(terms@, len as nat),
    ensures
        plain(r.0@, len as nat),
        cubes(r.0@).no_duplicates(),
        forall|c: Cube|
            cubes(r.0@).contains(c) <==> next_round(cubes(terms@).to_set()).contains(c),
        forall|x: int|
            0 <= x < terms.len() ==> (#[trigger] taken(r.1@, x) <==> merges(
                cubes(terms@).to_set(),
                cubes(terms@)[x],
            )),
{
    let ghost cs = cubes(terms@);
    let ghost set = cs.to_set();
    let n = terms.len();
    let mut next: Vec<Term> = Vec::new();
    let mut used: HashSet<usize> = HashSet::new();
    let mut i: usize = 0;
    while i < n
        invariant
            i <= n,
            n == terms.len(),
            cs == cubes(terms@),
            set == cs.to_set(),
            plain(terms@, len as nat),
            plain(next@, len as nat),
            cubes(next@).no_duplicates(),
            forall|k: int|
                0 <= k < next.len() ==> next_round(set).contains(#[trigger] cubes(next@)[k]),
            forall|a: int, b: int|
                #![trigger seen(i as int, 0, a, b)]
                seen(i as int, 0, a, b) && b < n && combined(cs[a], cs[b]) is Some ==> cubes(
                    next@,
                ).contains(combined(cs[a], cs[b])->0) && taken(used@, a) && taken(used@, b),
            forall|x: int| 0 <= x < n && #[trigger] taken(used@, x) ==> merges(set, cs[x]),
        decreases n - i,
    {
        let mut j: usize = i + 1;
        assert forall|a: int, b: int|
            #![trigger seen(i as int, j as int, a, b)]
            seen(i as int, j as int, a, b) && b < n && combined(cs[a], cs[b]) is Some implies cubes(
                next@,
            ).contains(combined(cs[a], cs[b])->0) && taken(used@, a) && taken(used@, b) by {
            assert(seen(i as int, 0, a, b));
        }
        while j < n
            invariant
                i < j <= n,
                n == terms.len(),
                cs == cubes(terms@),
                set == cs.to_set(),
                plain(terms@, len as nat),
                plain(next@, len as nat),
                cubes(next@).no_duplicates(),
                    forall|k: int|
                    0 <= k < next.len() ==> next_round(set).contains(#[trigger] cubes(next@)[k]),
                forall|a: int, b: int|
                    #![trigger seen(i as int, j as int, a, b)]
                    seen(i as int, j as int, a, b) && b < n && combined(cs[a], cs[b]) is Some
                        ==> cubes(next@).contains(combined(cs[a], cs[b])->0) && taken(used@, a) && taken(used@, b),
                forall|x: int| 0 <= x < n && #[trigger] taken(used@, x) ==> merges(set, cs[x]),
            decreases n - j,
        {
            let ghost old_next = next@;
            let ghost old_used = used@;
            assert(terms@[i as int].bits.len() == len && terms@[j as int].bits.len() == len);
            let merged_term = terms[i].combine(&terms[j]);
            proof {
                assert(cs[i as int] == terms@[i as int].bits@);
                assert(cs[j as int] == terms@[j as int].bits@);
                assert(set.contains(cs[i as int]));
                assert(set.contains(cs[j as int]));
            }
            match merged_term {
                Some(res) => {
                    let ghost c = res.bits@;
                    proof {
                        assert(combined(cs[i as int], cs[j as int]) == Some(c));
                        assert(next_round(set).contains(c));
                        assert(c.len() == len);
                    }
                    insert_unique(&mut next, res);
                    used.insert(i);
                    used.insert(j);
                    proof {
                        lemma_insert_unique(old_next, res, next@, len as nat);
                        assert forall|k: int| 0 <= k < next.len() implies next_round(set).contains(
                            #[trigger] cubes(next@)[k],
                        ) by {
                            assert(cubes(next@).contains(cubes(next@)[k]));
                            if cubes(old_next).contains(cubes(next@)[k]) {
                                let w = choose|w: int|
                                    0 <= w < cubes(old_next).len() && cubes(old_next)[w] == cubes(
                                        next@,
                                    )[k];
                                assert(next_round(set).contains(cubes(old_next)[w]));
                            }
                        }
                        assert forall|x: int| 0 <= x < n && #[trigger] taken(used@, x) implies merges(
                            set,
                            cs[x],
                        ) by {
                            if x == i {
                                assert(set.contains(cs[j as int]));
                            } else if x == j {
                                assert(set.contains(cs[i as int]));
                            } else {
                                assert(taken(old_used, x));
                            }
                        }
                    }
                },
                None => {},
            }
            proof {
                assert forall|a: int, b: int|
                    #![trigger seen(i as int, j + 1, a, b)]
                    seen(i as int, j + 1, a, b) && b < n && combined(cs[a], cs[b]) is Some implies cubes(
                        next@,
                    ).contains(combined(cs[a], cs[b])->0) && taken(used@, a) && taken(used@, b) by {
                    if a == i && b == j {
                    } else {
                        assert(seen(i as int, j as int, a, b));
                        assert(cubes(old_next).contains(combined(cs[a], cs[b])->0));
                        assert(taken(old_used, a) && taken(old_used, b));
                        if merged_term is Some {
                            lemma_insert_unique(
                                old_next,
                                merged_term->Some_0,
                                next@,
                                len as nat,
                            );
                        }
                    }
                }
            }
            j += 1;
        }
        proof {
            assert forall|a: int, b: int|
                #![trigger seen(i + 1, 0, a, b)]
                seen(i + 1, 0, a, b) && b < n && combined(cs[a], cs[b]) is Some implies cubes(
                    next@,
                ).contains(combined(cs[a], cs[b])->0) && taken(used@, a) && taken(used@, b) by {
                assert(seen(i as int, j as int, a, b));
            }
        }
        i += 1;
    }
    proof {
        assert forall|c: Cube| cubes(next@).contains(c) <==> next_round(set).contains(c) by {
            if cubes(next@).contains(c) {
                let w = choose|w: int| 0 <= w < cubes(next@).len() && cubes(next@)[w] == c;
                assert(next_round(set).contains(cubes(next@)[w]));
            }
            if next_round(set).contains(c) {
                let (a, b) = choose|a: Cube, b: Cube|
                    #![trigger combined(a, b)]
                    set.contains(a) && set.contains(b) && combined(a, b) == Some(c);
                lemma_pair_was_seen(terms@, len as nat, a, b);
                let (x, y) = choose|x: int, y: int|
                    0 <= x < y < n && combined(cs[x], cs[y]) == combined(a, b) && (cs[x] == a
                        || cs[x] == b);
                assert(seen(n as int, 0, x, y));
            }
        }
        assert forall|x: int| 0 <= x < n implies (#[trigger] taken(used@, x) <==> merges(set, cs[x])) by {
            if merges(set, cs[x]) {
                let b = choose|b: Cube|
                    #![trigger set.contains(b)]
                    set.contains(b) && (combined(cs[x], b) is Some || combined(b, cs[x]) is Some);
                assert(set.contains(cs[x]));
                let y = choose|y: int| 0 <= y < n && cs[y] == b;
                assert(terms@[x].bits.len() == len && terms@[y].bits.len() == len);
                lemma_combined_symmetric(cs[x], b);
                lemma_differences_self(b, b.len() as int);
                if x < y {
                    assert(seen(n as int, 0, x, y));
                } else {
                    assert(seen(n as int, 0, y, x));
                }
            }
        }
    }
    (next, used)
}

/// Two members of a set of terms of one length that merge stand at two
/// different positions, and merge in the order of their positions too.
proof fn lemma_pair_was_seen(ts: Seq<Term>, len: nat, a: Cube, b: Cube)
    requires
        plain(ts, len),
        cubes(ts).to_set().contains(a),
        cubes(ts).to_set().contains(b),
        combined(a, b) is Some,
    ensures
        exists|x: int, y: int|
            0 <= x < y < ts.len() && combined(cubes(ts)[x], cubes(ts)[y]) == combined(a, b) && (
            cubes(ts)[x] == a || cubes(ts)[x] == b),
{
    let cs = cubes(ts);
    let x = choose|x: int| 0 <= x < cs.len() && cs[x] == a;
    let y = choose|y: int| 0 <= y < cs.len() && cs[y] == b;
    assert(ts[x].bits.len() == len && ts[y].bits.len() == len);
    lemma_differences_self(a, a.len() as int);
    lemma_combined_symmetric(a, b);
    if x < y {
        assert(0 <= x < y < ts.len() && combined(cs[x], cs[y]) == combined(a, b) && cs[x] == a);
    } else {
        assert(0 <= y < x < ts.len() && combined(cs[y], cs[x]) == combined(a, b) && cs[y] == b);
    }
}

/// The texts of the terms `cs` over the variables `names`, in order.
pub open spec fn term_texts(cs: Seq<Cube>, names: Seq<Seq<char>>) -> Seq<Seq<char>> {
    Seq::new(cs.len(), |i: int| term_text(cs[i], names))
}

/// `parts` one after the other with `" v "` between them.
pub open spec fn sum_text(parts: Seq<Seq<char>>) -> Seq<char>
    decreases parts.len(),
{
    if parts.len() == 0 {
        Seq::empty()
    } else if parts.len() == 1 {
        parts[0]
    } else {
        sum_text(parts.drop_last()) + seq![' ', 'v', ' '] + parts.last()
    }
}

/// The texts `parts` as one sum.
pub fn join_sum(parts: &Vec<String>) -> (r: String)
    ensures
        r@ == sum_text(texts(parts@)),
{
    let ghost ps = texts(parts@);
    let mut out = String::new();
    let mut i: usize = 0;
    assert(ps.take(0) =~= Seq::<Seq<char>>::empty());
    while i < parts.len()
        invariant
            i <= parts.len(),
            ps == texts(parts@),
            out@ == sum_text(ps.take(i as int)),
        decreases parts.len() - i,
    {
        if i > 0 {
            out.append(" v ");
        }
        out.append(parts[i].as_str());
        proof {
            reveal_strlit(" v ");
            let next = ps.take(i + 1);
            assert(next.drop_last() =~= ps.take(i as int));
            assert(next.last() == ps[i as int]);
            if i == 0 {
                assert(out@ =~= ps[0]);
            } else {
                assert(out@ =~= sum_text(ps.take(i as int)) + seq![' ', 'v', ' '] + ps[i as int]);
            }
        }
        i += 1;
    }
    assert(ps.take(i as int) =~= ps);
    out
}

/// Some term among the first `upto` of `cs` that took part in no merge is `c`.
pub open spec fn kept(cs: Seq<Cube>, used: Set<usize>, upto: int, c: Cube) -> bool {
    exists|y: int| 0 <= y < upto && !taken(used, y) && #[trigger] cs[y] == c
}

/// The number of bits of the rows `rows`, taken from the first.
pub open spec fn row_length(rows: Seq<Seq<u8>>) -> nat {
    if rows.len() == 0 {
        0
    } else {
        rows[0].len()
    }
}

impl BooleanFunction {
    /// All rows have the same number of bits, and there is a name for each
    /// bit.
    pub open spec fn well_formed(&self) -> bool {
        &&& forall|k: int|
            0 <= k < self.minterms.len() ==> (#[trigger] self.minterms[k]).len() == row_length(
                self.rows(),
            )
        &&& row_length(self.rows()) <= self.var_names.len()
    }

    /// The number of bits of the rows.
    fn bits_per_row(&self) -> (r: usize)
        ensures
            r == row_length(self.rows()),
    {
        if self.minterms.len() > 0 {
            self.minterms[0].len()
        } else {
            0
        }
    }

    /// Whether all rows have the same number of bits and there is a name for
    /// each bit.
    pub fn is_well_formed(&self) -> (r: bool)
        ensures
            r == self.well_formed(),
    {
        let len = self.bits_per_row();
        if len > self.var_names.len() {
            return false;
        }
        let mut k: usize = 0;
        while k < self.minterms.len()
            invariant
                k <= self.minterms.len(),
                len == row_length(self.rows()),
                forall|q: int| 0 <= q < k ==> (#[trigger] self.minterms[q]).len() == len,
            decreases self.minterms.len() - k,
        {
            if self.minterms[k].len() != len {
                return false;
            }
            k += 1;
        }
        true
    }

    /// The prime implicants of the function, each once: the terms that are
    /// left unmerged when terms that differ in one place are merged round by
    /// round, starting from the rows.
    pub fn prime_implicants(&self) -> (r: Vec<Term>)
        requires
            self.well_formed(),
        ensures
            cubes(r@).no_duplicates(),
            cubes(r@).to_set() == prime_cubes(minterm_cubes(self.rows())),
            plain(r@, row_length(self.rows())),
    {
        let len = self.bits_per_row();
        let ghost rows = self.rows();
        let ghost start = minterm_cubes(rows);
        let mut terms: Vec<Term> = Vec::new();
        let mut k: usize = 0;
        while k < self.minterms.len()
            invariant
                k <= self.minterms.len(),
                self.well_formed(),
                len == row_length(self.rows()),
                rows == self.rows(),
                terms.len() == k,
                plain(terms@, len as nat),
                forall|q: int| 0 <= q < k ==> (#[trigger] terms@[q]).bits@ == cube_of(rows[q]),
            decreases self.minterms.len() - k,
        {
            let t = Term::new(self.minterms[k].as_slice());
            assert(self.minterms[k as int].len() == len);
            assert(rows[k as int] == self.minterms[k as int]@);
            terms.push(t);
            k += 1;
        }
        proof {
            assert forall|c: Cube| cubes(terms@).to_set().contains(c) <==> start.contains(c) by {
                if cubes(terms@).contains(c) {
                    let w = choose|w: int| 0 <= w < cubes(terms@).len() && cubes(terms@)[w] == c;
                    assert(cube_of(rows[w]) == c);
                }
                if start.contains(c) {
                    let w = choose|w: int| 0 <= w < rows.len() && cube_of(#[trigger] rows[w]) == c;
                    assert(cubes(terms@)[w] == c);
                }
            }
            assert(cubes(terms@).to_set() =~= start);
            assert forall|q: int| 0 <= q < terms.len() implies dashes(
                #[trigger] cubes(terms@)[q],
                len as int,
            ) >= 0 by {}
            assert(primes_before(start, 0) =~= Set::<Cube>::empty());
        }
        let mut primes: Vec<Term> = Vec::new();
        let ghost mut round: nat = 0;
        assert(cubes(primes@).to_set() =~= Set::<Cube>::empty());
        loop
            invariant_except_break
                plain(terms@, len as nat),
                cubes(terms@).to_set() == nth_round(start, round),
                forall|q: int|
                    0 <= q < terms.len() ==> dashes(#[trigger] cubes(terms@)[q], len as int)
                        >= round,
                round <= len,
                cubes(primes@).to_set() == primes_before(start, round),
            invariant
                plain(primes@, len as nat),
                cubes(primes@).no_duplicates(),
            ensures
                cubes(primes@).to_set() == prime_cubes(start),
            decreases len - round,
        {
            let ghost cs = cubes(terms@);
            let ghost set = cs.to_set();
            let (next, used) = merge_pairs(&terms, len);
            let ghost found = cubes(primes@);
            let mut x: usize = 0;
            while x < terms.len()
                invariant
                    x <= terms.len(),
                    cs == cubes(terms@),
                    plain(terms@, len as nat),
                    plain(primes@, len as nat),
                    cubes(primes@).no_duplicates(),
                    forall|c: Cube|
                        #![trigger cubes(primes@).contains(c)]
                        cubes(primes@).contains(c) <==> found.contains(c) || kept(
                            cs,
                            used@,
                            x as int,
                            c,
                        ),
                decreases terms.len() - x,
            {
                let ghost before = primes@;
                if !used.contains(&x) {
                    let t = terms[x].clone();
                    assert(t.bits@ == cs[x as int]);
                    insert_unique(&mut primes, t);
                    proof {
                        lemma_insert_unique(before, t, primes@, len as nat);
                    }
                }
                proof {
                    assert forall|c: Cube|
                        #![trigger cubes(primes@).contains(c)]
                        cubes(primes@).contains(c) <==> found.contains(c) || kept(
                            cs,
                            used@,
                            x + 1,
                            c,
                        ) by {
                        let was = cubes(before).contains(c);
                        assert(was <==> found.contains(c) || kept(cs, used@, x as int, c));
                        if kept(cs, used@, x as int, c) {
                            let y = choose|y: int| 0 <= y < x && !taken(used@, y) && #[trigger] cs[y] == c;
                            assert(0 <= y < x + 1 && !taken(used@, y) && cs[y] == c);
                        }
                        if kept(cs, used@, x + 1, c) {
                            let y = choose|y: int|
                                0 <= y < x + 1 && !taken(used@, y) && #[trigger] cs[y] == c;
                            if y < x {
                                assert(0 <= y < x && !taken(used@, y) && cs[y] == c);
                            }
                        }
                        if !taken(used@, x as int) && c == cs[x as int] {
                            assert(0 <= x < x + 1 && !taken(used@, x as int) && cs[x as int] == c);
                        }
                    }
                }
                x += 1;
            }
            proof {
                assert forall|c: Cube|
                    cubes(primes@).to_set().contains(c) <==> primes_before(
                        start,
                        round + 1,
                    ).contains(c) by {
                    if cubes(primes@).contains(c) {
                        if found.contains(c) {
                            assert(found.to_set().contains(c));
                            let j = choose|j: nat|
                                j < round && #[trigger] unmerged(nth_round(start, j)).contains(c);
                            assert(j < round + 1);
                        } else {
                            assert(kept(cs, used@, terms.len() as int, c));
                            let y = choose|y: int|
                                0 <= y < terms.len() && !taken(used@, y) && #[trigger] cs[y] == c;
                            assert(cs.contains(cs[y]));
                            assert(set.contains(cs[y]));
                            assert(taken(used@, y) <==> merges(set, cs[y]));
                            assert(unmerged(nth_round(start, round)).contains(c));
                        }
                    }
                    if primes_before(start, round + 1).contains(c) {
                        let j = choose|j: nat|
                            j < round + 1 && #[trigger] unmerged(nth_round(start, j)).contains(c);
                        if j < round {
                            assert(primes_before(start, round).contains(c));
                            assert(found.to_set().contains(c));
                        } else {
                            assert(j == round);
                            assert(set.contains(c));
                            assert(cs.contains(c));
                            let y = choose|y: int| 0 <= y < cs.len() && cs[y] == c;
                            assert(taken(used@, y) <==> merges(set, cs[y]));
                            assert(0 <= y < terms.len() && !taken(used@, y) && cs[y] == c);
                            assert(kept(cs, used@, terms.len() as int, c));
                        }
                    }
                }
                assert(cubes(primes@).to_set() =~= primes_before(start, round + 1));
                assert(cubes(next@).to_set() =~= next_round(set));
                assert(nth_round(start, round + 1) == next_round(set));
            }
            if next.len() == 0 {
                proof {
                    assert(cubes(next@).to_set() =~= Set::<Cube>::empty());
                    assert forall|c: Cube|
                        prime_cubes(start).contains(c) implies primes_before(
                            start,
                            round + 1,
                        ).contains(c) by {
                        let j = choose|j: nat| #[trigger]
                            unmerged(nth_round(start, j)).contains(c);
                        if j > round {
                            lemma_rounds_stay_empty(start, round + 1, j);
                        }
                    }
                    assert(cubes(primes@).to_set() =~= prime_cubes(start));
                }
                break;
            }
            proof {
                assert forall|q: int| 0 <= q < next.len() implies dashes(
                    #[trigger] cubes(next@)[q],
                    len as int,
                ) >= round + 1 by {
                    let c = cubes(next@)[q];
                    assert(cubes(next@).contains(c));
                    assert(next_round(set).contains(c));
                    let (a, b) = choose|a: Cube, b: Cube|
                        #![trigger combined(a, b)]
                        set.contains(a) && set.contains(b) && combined(a, b) == Some(c);
                    let ia = choose|ia: int| 0 <= ia < cs.len() && cs[ia] == a;
                    let ib = choose|ib: int| 0 <= ib < cs.len() && cs[ib] == b;
                    assert(terms@[ia].bits.len() == len && terms@[ib].bits.len() == len);
                    lemma_merge_adds_dash(a, b, round);
                }
                lemma_dashes_bound(cubes(next@)[0], len as int);
            }
            terms = next;
            proof {
                round = round + 1;
            }
        }
        primes
    }

    /// The simplified function: the texts of its prime implicants in
    /// ascending order, or `None` where the function is 1 on no row.
    pub fn simplify(&self) -> (r: Option<Vec<String>>)
        requires
            self.well_formed(),
        ensures
            r is None <==> self.rows().len() == 0,
            r matches Some(parts) ==> ascending(texts(parts@)) && exists|cs: Seq<Cube>|
                #![trigger term_texts(cs, self.names())]
                cs.no_duplicates() && cs.to_set() == prime_cubes(minterm_cubes(self.rows()))
                    && texts(parts@).to_multiset() == term_texts(cs, self.names()).to_multiset(),
    {
        if self.minterms.len() == 0 {
            return None;
        }
        let primes = self.prime_implicants();
        let ghost cs = cubes(primes@);
        let mut parts: Vec<String> = Vec::new();
        let mut i: usize = 0;
        while i < primes.len()
            invariant
                i <= primes.len(),
                cs == cubes(primes@),
                plain(primes@, row_length(self.rows())),
                row_length(self.rows()) <= self.var_names.len(),
                parts.len() == i,
                forall|q: int|
                    0 <= q < i ==> (#[trigger] parts[q])@ == term_text(cs[q], self.names()),
            decreases primes.len() - i,
        {
            assert(primes@[i as int].bits.len() <= self.var_names.len());
            assert(cs[i as int] == primes@[i as int].bits@);
            let text = primes[i].to_string(self.var_names.as_slice());
            parts.push(text);
            i += 1;
        }
        assert(texts(parts@) =~= term_texts(cs, self.names()));
        sort_strings(&mut parts);
        Some(parts)
    }
}

} // verus!
