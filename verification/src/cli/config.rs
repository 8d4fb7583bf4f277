//! The options of the command line, and the reading of the numbers in them.

use crate::numbers::{all_digits, decimal_text_value, digits_value, BigNat};
use vstd::prelude::*;

verus! {

/// Calculate the binary expansion of tau (2 pi) to an arbitrary number of places.
pub struct Config {
    /// the file path to write the output to.
    pub output_path: Option<String>,
    /// write log output to the specified path while the program is running.
    pub log_path: Option<String>,
    /// skip the specified number of bytes in the output, including the byte before the
    /// decimal place; with an output path, this defaults to the size of the file.
    pub start_index: Option<BigNat>,
    /// the number of bytes of tau to calculate.
    pub num_bytes: Option<BigNat>,
    /// calculate bytes in parallel using the specified number of threads (positive).
    pub num_threads: Option<usize>,
    /// the minimum number of bytes to calculate in each batch (positive, default 1).
    pub min_batch_size: usize,
    /// a maximum number of bytes to calculate per iteration (positive); takes
    /// precedence over `min_batch_size`.
    pub max_batch_size: Option<usize>,
    /// an initial precision (in bits, positive) for intermediate calculations.
    pub initial_precision: Option<u64>,
    /// hide the line of information about the current batch of bytes.
    pub no_status: bool,
    /// do not print out batches of bytes as they are calculated.
    pub no_waterfall: bool,
    /// shorthand for `no_status` and `no_waterfall`.
    pub is_quiet: bool,
}

impl Config {
    /// The sizes, counts and precisions that must be positive are.
    pub open spec fn wf(&self) -> bool {
        &&& self.min_batch_size > 0
        &&& self.max_batch_size matches Some(m) ==> m > 0
        &&& self.num_threads matches Some(t) ==> t > 0
        &&& self.initial_precision matches Some(p) ==> p > 0
    }
}

/// `s` with its underscores taken out.
pub open spec fn without_underscores(s: Seq<char>) -> Seq<char>
    decreases s.len(),
{
    if s.len() == 0 {
        s
    } else {
        let rest = without_underscores(s.drop_last());
        if s.last() == '_' {
            rest
        } else {
            rest.push(s.last())
        }
    }
}

/// Taking the underscores out keeps every other character, in order: it is the
/// filter of the text by `c != '_'`.
pub proof fn lemma_without_underscores_filter(s: Seq<char>)
    ensures
        without_underscores(s) == s.filter(|c: char| c != '_'),
    decreases s.len(),
{
    reveal_with_fuel(Seq::filter, 1);
    if s.len() > 0 {
        lemma_without_underscores_filter(s.drop_last());
    }
}

/// Taking the underscores out of two texts one after the other is taking them out
/// of the whole.
pub proof fn lemma_without_underscores_concat(a: Seq<char>, b: Seq<char>)
    ensures
        without_underscores(a + b) == without_underscores(a) + without_underscores(b),
    decreases b.len(),
{
    if b.len() == 0 {
        assert(a + b =~= a);
        assert(without_underscores(a) + b =~= without_underscores(a));
    } else {
        assert((a + b).drop_last() =~= a + b.drop_last());
        assert((a + b).last() == b.last());
        lemma_without_underscores_concat(a, b.drop_last());
        if b.last() != '_' {
            assert(without_underscores(a) + without_underscores(b.drop_last()).push(b.last())
                =~= (without_underscores(a) + without_underscores(b.drop_last())).push(b.last()));
        }
    }
}

/// Digits alone read as their value: a text of ASCII digits, leading zeros and a
/// lone zero included, is a number, and the number that its digits spell.
pub proof fn lemma_digits_parse(s: Seq<char>)
    requires
        all_digits(s),
    ensures
        without_underscores(s) == s,
        decimal_text_value(without_underscores(s)) == Some(digits_value(s)),
    decreases s.len(),
{
    if s.len() > 1 {
        assert(all_digits(s.drop_last())) by {
            assert forall|i: int| 0 <= i < s.drop_last().len() implies '0' <= #[trigger] s.drop_last()[i] <= '9' by {
                assert(s.drop_last()[i] == s[i]);
            }
        }
        lemma_digits_parse(s.drop_last());
        assert('0' <= s[s.len() - 1] <= '9');
        assert(s.last() != '_');
        assert(s.drop_last().push(s.last()) =~= s);
    } else {
        assert('0' <= s[0] <= '9');
        assert(s.last() != '_');
        assert(s.drop_last() =~= Seq::<char>::empty());
        assert(without_underscores(s.drop_last()) =~= Seq::<char>::empty());
        assert(Seq::<char>::empty().push(s.last()) =~= s);
    }
    assert('0' <= s[0] <= '9');
    assert(s[0] != '+');
}

/// An underscore put anywhere in a text does not change the number it is read as.
pub proof fn lemma_underscore_anywhere(s: Seq<char>, i: int)
    requires
        0 <= i <= s.len(),
    ensures
        decimal_text_value(without_underscores(s.take(i) + seq!['_'] + s.skip(i)))
            == decimal_text_value(without_underscores(s)),
{
    lemma_without_underscores_concat(s.take(i) + seq!['_'], s.skip(i));
    lemma_without_underscores_concat(s.take(i), seq!['_']);
    lemma_without_underscores_concat(s.take(i), s.skip(i));
    assert(s.take(i) + s.skip(i) =~= s);
    assert(seq!['_'].drop_last() =~= Seq::<char>::empty());
    assert(seq!['_'].last() == '_');
    assert(without_underscores(Seq::<char>::empty()) =~= Seq::<char>::empty());
    assert(without_underscores(seq!['_']) =~= Seq::<char>::empty());
    assert(without_underscores(s.take(i)) + Seq::<char>::empty() =~= without_underscores(s.take(i)));
}

/// Reads a natural number written in decimal, where underscores may separate digits
/// (but not commas or periods, as they may be intended as decimal separators).
pub fn parse_natural(value: &str) -> (r: Result<BigNat, String>)
    ensures
        r matches Ok(n) ==> decimal_text_value(without_underscores(value@)) == Some(n@),
        r is Err <==> decimal_text_value(without_underscores(value@)) is None,
        r matches Err(message) ==> message@ == "input must consist only of digits and underscores"@,
{
    let len = value.unicode_len();
    let mut chars: Vec<char> = Vec::new();
    let mut i: usize = 0;
    while i < len
        invariant
            len == value@.len(),
            i <= len,
            chars@ == without_underscores(value@.take(i as int)),
        decreases len - i,
    {
        let c = value.get_char(i);
        proof {
            assert(value@.take(i + 1).drop_last() =~= value@.take(i as int));
        }
        if c != '_' {
            chars.push(c);
        }
        i = i + 1;
    }
    assert(value@.take(len as int) =~= value@);
    match BigNat::from_decimal(&chars) {
        Some(natural) => Ok(natural),
        None => Err(String::from_str("input must consist only of digits and underscores")),
    }
}

} // verus!
