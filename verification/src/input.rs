//! What a line typed by the user means: a list of variable names, a row of
//! bits, or the word that ends the entry.

use vstd::prelude::*;
use crate::text::{chars_of, decimal_u8, mark_blanks, marked, parse_u8, split_words, texts, words};

verus! {

/// What a line says when variable names are asked for.
#[derive(Debug)]
pub enum VariablesEntry {
    /// The line is empty: ask again.
    Blank,
    /// The line holds blanks only: at least one name is needed.
    NoNames,
    /// The names, in order.
    Names(Vec<String>),
}

/// The model of a `VariablesEntry`.
pub ghost enum VariablesModel {
    Blank,
    NoNames,
    Names(Seq<Seq<char>>),
}

impl View for VariablesEntry {
    type V = VariablesModel;

    open spec fn view(&self) -> VariablesModel {
        match self {
            VariablesEntry::Blank => VariablesModel::Blank,
            VariablesEntry::NoNames => VariablesModel::NoNames,
            VariablesEntry::Names(ns) => VariablesModel::Names(texts(ns@)),
        }
    }
}

/// What the line `cs` says when variable names are asked for: its words are
/// the names.
pub open spec fn variables_of(cs: Seq<char>) -> VariablesModel {
    if cs.len() == 0 {
        VariablesModel::Blank
    } else if words(marked(cs), 0).len() == 0 {
        VariablesModel::NoNames
    } else {
        VariablesModel::Names(words(marked(cs), 0))
    }
}

/// Reads a line as a list of variable names separated by blanks.
pub fn variables_entry(line: &str) -> (r: VariablesEntry)
    ensures
        r@ == variables_of(line@),
{
    let chars = mark_blanks(line);
    if chars.len() == 0 {
        return VariablesEntry::Blank;
    }
    let names = split_words(&chars);
    if names.len() == 0 {
        VariablesEntry::NoNames
    } else {
        VariablesEntry::Names(names)
    }
}

/// What a line says when a row of bits is asked for.
#[derive(Debug)]
pub enum MintermEntry {
    /// The word that ends the entry.
    Done,
    /// The line does not hold as many bits as there are variables.
    Rejected,
    /// The bits, one per variable.
    Bits(Vec<u8>),
}

/// The model of a `MintermEntry`.
pub ghost enum MintermModel {
    Done,
    Rejected,
    Bits(Seq<u8>),
}

impl View for MintermEntry {
    type V = MintermModel;

    open spec fn view(&self) -> MintermModel {
        match self {
            MintermEntry::Done => MintermModel::Done,
            MintermEntry::Rejected => MintermModel::Rejected,
            MintermEntry::Bits(bits) => MintermModel::Bits(bits@),
        }
    }
}

/// Whether `cs` is the word that ends the entry, in any ASCII case.
pub open spec fn is_done_word(cs: Seq<char>) -> bool {
    &&& cs.len() == 4
    &&& (cs[0] == 'g' || cs[0] == 'G')
    &&& (cs[1] == 'a' || cs[1] == 'A')
    &&& (cs[2] == 't' || cs[2] == 'T')
    &&& (cs[3] == 'a' || cs[3] == 'A')
}

/// The members of `values` that are the number 0 or the number 1, in order.
pub open spec fn chosen_bits(values: Seq<Option<u8>>) -> Seq<u8>
    decreases values.len(),
{
    if values.len() == 0 {
        Seq::empty()
    } else {
        let rest = chosen_bits(values.drop_last());
        match values.last() {
            Some(b) => if b == 0 || b == 1 {
                rest.push(b)
            } else {
                rest
            },
            None => rest,
        }
    }
}

/// The byte that each of `ws` writes, if it writes one.
pub open spec fn parsed_words(ws: Seq<Seq<char>>) -> Seq<Option<u8>> {
    Seq::new(ws.len(), |i: int| decimal_u8(ws[i]))
}

/// What the line `cs` says when a row of `num_vars` bits is asked for, where
/// `values` are its words read as numbers.
pub open spec fn minterm_of(cs: Seq<char>, values: Seq<Option<u8>>, num_vars: nat) -> MintermModel {
    if is_done_word(cs) {
        MintermModel::Done
    } else if chosen_bits(values).len() != num_vars {
        MintermModel::Rejected
    } else {
        MintermModel::Bits(chosen_bits(values))
    }
}

/// Whether `line` is the word that ends the entry, in any ASCII case.
pub fn is_done(line: &str) -> (r: bool)
    ensures
        r == is_done_word(line@),
{
    let cs = chars_of(line);
    cs.len() == 4 && (cs[0] == 'g' || cs[0] == 'G') && (cs[1] == 'a' || cs[1] == 'A') && (cs[2]
        == 't' || cs[2] == 'T') && (cs[3] == 'a' || cs[3] == 'A')
}

/// Keeps of `values` the numbers 0 and 1, in order.
pub fn select_bits(values: &Vec<Option<u8>>) -> (r: Vec<u8>)
    ensures
        r@ == chosen_bits(values@),
{
    let mut out: Vec<u8> = Vec::new();
    let mut i: usize = 0;
    assert(values@.take(0) =~= Seq::<Option<u8>>::empty());
    while i < values.len()
        invariant
            i <= values.len(),
            out@ == chosen_bits(values@.take(i as int)),
        decreases values.len() - i,
    {
        proof {
            let next = values@.take(i + 1);
            assert(next.drop_last() =~= values@.take(i as int));
            assert(next.last() == values@[i as int]);
        }
        match values[i] {
            Some(b) => {
                if b == 0 || b == 1 {
                    out.push(b);
                }
            },
            None => {},
        }
        i += 1;
    }
    assert(values@.take(i as int) =~= values@);
    out
}

/// Reads a line as a row of `num_vars` bits, given its words read as numbers:
/// what is neither 0 nor 1 is passed over, and the row counts only if
/// `num_vars` bits are left.
pub fn minterm_from_values(line: &str, values: &Vec<Option<u8>>, num_vars: usize) -> (r:
    MintermEntry)
    ensures
        r@ == minterm_of(line@, values@, num_vars as nat),
{
    if is_done(line) {
        return MintermEntry::Done;
    }
    let bits = select_bits(values);
    if bits.len() != num_vars {
        MintermEntry::Rejected
    } else {
        MintermEntry::Bits(bits)
    }
}

/// Reads each of `names` as a number.
fn parse_words(names: &Vec<String>) -> (r: Vec<Option<u8>>)
    ensures
        r@ == parsed_words(texts(names@)),
{
    let mut out: Vec<Option<u8>> = Vec::new();
    let mut i: usize = 0;
    while i < names.len()
        invariant
            i <= names.len(),
            out.len() == i,
            forall|k: int| 0 <= k < i ==> (#[trigger] out[k]) == decimal_u8(names[k]@),
        decreases names.len() - i,
    {
        let v = parse_u8(names[i].as_str());
        out.push(v);
        i += 1;
    }
    assert(out@ =~= parsed_words(texts(names@)));
    out
}

/// Reads a line as a row of `num_vars` bits separated by blanks.
pub fn minterm_entry(line: &str, num_vars: usize) -> (r: MintermEntry)
    ensures
        r@ == minterm_of(line@, parsed_words(words(marked(line@), 0)), num_vars as nat),
{
    let chars = mark_blanks(line);
    let names = split_words(&chars);
    let values = parse_words(&names);
    minterm_from_values(line, &values, num_vars)
}

} // verus!
