//! Addresses: slash-delimited paths, their segments, the reserved sentinel
//! segments, and the reading of a segment as an array index.

use vstd::prelude::*;
use vstd::std_specs::iter::IteratorSpec;

verus! {

broadcast use
    vstd::std_specs::vec::group_vec_axioms,
    vstd::seq::group_seq_axioms,
    vstd::string::axiom_spec_iter,
    vstd::string::next_postcondition;

/// The position of the first occurrence of `c` in `s`, or -1.
pub open spec fn first_index_of(s: Seq<char>, c: char) -> int
    decreases s.len(),
{
    if s.len() == 0 {
        -1
    } else if s[0] == c {
        0
    } else {
        let r = first_index_of(s.drop_first(), c);
        if r < 0 {
            -1
        } else {
            r + 1
        }
    }
}

/// What `first_index_of` returns: the first matching position, if any.
pub proof fn lemma_first_index_of(s: Seq<char>, c: char)
    ensures
        first_index_of(s, c) >= 0 ==> {
            &&& first_index_of(s, c) < s.len()
            &&& s[first_index_of(s, c)] == c
            &&& forall|j: int| 0 <= j < first_index_of(s, c) ==> s[j] != c
        },
        first_index_of(s, c) < 0 ==> forall|j: int| 0 <= j < s.len() ==> s[j] != c,
    decreases s.len(),
{
    if s.len() > 0 && s[0] != c {
        lemma_first_index_of(s.drop_first(), c);
        assert forall|j: int| 1 <= j < s.len() implies s[j] == s.drop_first()[j - 1] by {}
    }
}

/// Splitting on '/': the pieces between the separators, in order. A string
/// holding n separators yields n + 1 pieces; empty pieces are kept, so ""
/// yields one empty piece.
pub open spec fn spec_split(s: Seq<char>) -> Seq<Seq<char>>
    decreases s.len(),
    via spec_split_decreases
{
    let i = first_index_of(s, '/');
    if i < 0 {
        seq![s]
    } else {
        seq![s.subrange(0, i)] + spec_split(s.subrange(i + 1, s.len() as int))
    }
}

#[via_fn]
proof fn spec_split_decreases(s: Seq<char>) {
    lemma_first_index_of(s, '/');
}

/// Relies on str::split with a '/' pattern: the substrings between the
/// occurrences of the separator, in order, kept even when empty.
#[verifier::external_body]
pub fn split_on_slash(s: &str) -> (r: Vec<String>)
    ensures
        r.deep_view() == spec_split(s@),
{
    s.split('/').map(|piece| piece.to_string()).collect()
}

/// A split always yields at least one segment.
pub proof fn lemma_split_len(s: Seq<char>)
    ensures
        spec_split(s).len() >= 1,
{
    lemma_first_index_of(s, '/');
}

/// A digit character.
pub open spec fn is_digit(c: char) -> bool {
    48 <= c as int <= 57
}

pub open spec fn all_digits(s: Seq<char>) -> bool {
    forall|i: int| 0 <= i < s.len() ==> is_digit(#[trigger] s[i])
}

/// The number written by a sequence of digit characters, most significant
/// first.
pub open spec fn digits_value(s: Seq<char>) -> int
    decreases s.len(),
{
    if s.len() == 0 {
        0
    } else {
        digits_value(s.drop_last()) * 10 + (s.last() as int - 48)
    }
}

/// Reading a segment as an array index, as the decimal grammar of unsigned
/// integer parsing has it: an optional leading '+', then one or more digits,
/// and a value that fits the machine's word.
pub open spec fn spec_parse_index(s: Seq<char>) -> Option<int> {
    let body = if s.len() > 0 && s[0] == '+' {
        s.drop_first()
    } else {
        s
    };
    if body.len() > 0 && all_digits(body) && 0 <= digits_value(body) <= usize::MAX {
        Some(digits_value(body))
    } else {
        Option::None
    }
}

/// Digit prefixes never write a larger number than the whole.
proof fn lemma_digits_value_grows(s: Seq<char>, j: int)
    requires
        all_digits(s),
        0 <= j <= s.len(),
    ensures
        digits_value(s.subrange(0, j)) <= digits_value(s),
        digits_value(s) >= 0,
    decreases s.len() - j,
{
    if j == s.len() {
        assert(s.subrange(0, j) =~= s);
        lemma_digits_value_nonneg(s);
    } else {
        lemma_digits_value_grows(s, j + 1);
        let a = s.subrange(0, j);
        let b = s.subrange(0, j + 1);
        assert(b.drop_last() =~= a);
        lemma_digits_value_nonneg(a);
    }
}

proof fn lemma_digits_value_nonneg(s: Seq<char>)
    requires
        all_digits(s),
    ensures
        digits_value(s) >= 0,
    decreases s.len(),
{
    if s.len() > 0 {
        assert(all_digits(s.drop_last())) by {
            assert(forall|i: int| 0 <= i < s.len() - 1 ==> s.drop_last()[i] == s[i]);
        }
        lemma_digits_value_nonneg(s.drop_last());
    }
}

/// The characters of `s`, in order.
pub fn chars_vec(s: &str) -> (r: Vec<char>)
    ensures
        r@ == s@,
{
    let mut it = s.chars();
    let mut out: Vec<char> = Vec::new();
    proof {
        assert(out@ + it.remaining() =~= s@);
    }
    loop
        invariant
            out@ + it.remaining() == s@,
            IteratorSpec::decrease(&it) is Some,
        decreases IteratorSpec::decrease(&it)->0,
    {
        let ghost prev = it;
        match it.next() {
            Some(c) => {
                proof {
                    assert(prev.remaining().len() > 0);
                    assert(out@.push(c) + it.remaining() =~= s@);
                }
                out.push(c);
            },
            None => {
                proof {
                    assert(out@ + it.remaining() =~= out@);
                }
                break ;
            },
        }
    }
    out
}

/// Reads a path segment as an array index; mirrors `spec_parse_index`.
pub fn parse_index(s: &String) -> (r: Option<usize>)
    ensures
        r matches Some(n) ==> spec_parse_index(s@) == Some(n as int),
        r is None ==> spec_parse_index(s@) is None,
{
    let cs = chars_vec(s.as_str());
    let n = cs.len();
    let mut start: usize = 0;
    if n > 0 && cs[0] == '+' {
        start = 1;
    }
    let ghost body = if s@.len() > 0 && s@[0] == '+' {
        s@.drop_first()
    } else {
        s@
    };
    proof {
        assert(body =~= cs@.subrange(start as int, n as int));
    }
    if start == n {
        return None;
    }
    let mut val: usize = 0;
    let mut i: usize = start;
    while i < n
        invariant
            start <= i <= n,
            n == cs.len(),
            body == cs@.subrange(start as int, n as int),
            all_digits(cs@.subrange(start as int, i as int)),
            val == digits_value(cs@.subrange(start as int, i as int)),
        decreases n - i,
    {
        let c = cs[i];
        let d: usize = match c {
            '0' => 0,
            '1' => 1,
            '2' => 2,
            '3' => 3,
            '4' => 4,
            '5' => 5,
            '6' => 6,
            '7' => 7,
            '8' => 8,
            '9' => 9,
            _ => {
                proof {
                    assert(!is_digit(body[i - start]));
                }
                return None;
            },
        };
        proof {
            let a = cs@.subrange(start as int, i as int);
            let b = cs@.subrange(start as int, i as int + 1);
            assert(b.drop_last() =~= a);
            assert(b.last() == cs@[i as int]);
            assert(is_digit(cs@[i as int]));
            assert forall|j: int| 0 <= j < b.len() implies is_digit(#[trigger] b[j]) by {
                if j < i - start {
                    assert(b[j] == a[j]);
                } else {
                    assert(b[j] == cs@[i as int]);
                }
            }
            assert(digits_value(b) == digits_value(a) * 10 + d);
        }
        if val > (usize::MAX - d) / 10 {
            // The number written by the whole segment cannot fit.
            proof {
                let pre = cs@.subrange(start as int, i as int + 1);
                let m = (usize::MAX - d) as int;
                assert(m / 10 * 10 + 10 > m);
                assert(val as int >= m / 10 + 1);
                assert(val as int * 10 >= (m / 10 + 1) * 10);
                assert(val as int * 10 + d > usize::MAX);
                assert(digits_value(pre) > usize::MAX);
                if all_digits(body) {
                    lemma_digits_value_grows(body, i - start + 1);
                    assert(body.subrange(0, i - start + 1) =~= pre);
                }
            }
            return None;
        }
        val = val * 10 + d;
        i += 1;
    }
    proof {
        assert(cs@.subrange(start as int, n as int) =~= body);
    }
    Some(val)
}

/// Whether a segment is the trailing table-header sentinel "[[]]".
pub fn is_aot_sentinel(s: &String) -> (r: bool)
    ensures
        r == (s@ == "[[]]"@),
{
    let lit: String = "[[]]".to_owned();
    s.eq(&lit)
}

/// Whether a segment is the trailing dotted-path sentinel "[]".
pub fn is_append_sentinel(s: &String) -> (r: bool)
    ensures
        r == (s@ == "[]"@),
{
    let lit: String = "[]".to_owned();
    s.eq(&lit)
}

} // verus!
