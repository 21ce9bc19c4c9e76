//! Parsing of the grammar text format's alphabet lines: space-separated
//! single-character symbols.

use vstd::prelude::*;

use crate::sets::char_at;

verus! {

/// A well-formed alphabet line: single non-space characters separated by
/// single spaces.
pub open spec fn chars_line_ok(s: Seq<char>) -> bool {
    &&& s.len() % 2 == 1
    &&& (forall|i: int| 0 <= i < s.len() && i % 2 == 1 ==> s[i] == ' ')
    &&& (forall|i: int| 0 <= i < s.len() && i % 2 == 0 ==> s[i] != ' ')
}

/// The symbols of a well-formed alphabet line: its even positions.
pub open spec fn chars_of_line(s: Seq<char>) -> Seq<char> {
    Seq::new(((s.len() + 1) / 2) as nat, |k: int| s[2 * k])
}

/// Splits an alphabet line into its single-character symbols. Fails exactly
/// when the line is not single characters separated by single spaces (so on
/// an empty line, a run of spaces, or a longer token).
pub fn get_chars(line: &String) -> (r: Result<Vec<char>, &'static str>)
    ensures
        (r is Ok) <==> chars_line_ok(line@),
        (r is Ok) ==> r->Ok_0@ == chars_of_line(line@),
{
    let s = line.as_str();
    let n = s.unicode_len();
    let mut v: Vec<char> = Vec::new();
    let mut i: usize = 0;
    while i < n
        invariant
            s@ == line@,
            n == line@.len(),
            0 <= i <= n,
            chars_line_ok(line@) ==> v@ =~= chars_of_line(line@).subrange(0, ((i + 1) / 2) as int),
            forall|k: int| 0 <= k < i && k % 2 == 1 ==> line@[k] == ' ',
            forall|k: int| 0 <= k < i && k % 2 == 0 ==> line@[k] != ' ',
        decreases n - i,
    {
        let c = s.get_char(i);
        if i % 2 == 0 {
            if c == ' ' {
                proof {
                    if chars_line_ok(line@) {
                        assert(line@[i as int] != ' ');
                    }
                }
                return Err("Non terminals must be one character");
            }
            v.push(c);
        } else {
            if c != ' ' {
                proof {
                    if chars_line_ok(line@) {
                        assert(line@[i as int] == ' ');
                    }
                }
                return Err("Non terminals must be one character");
            }
        }
        proof {
            if chars_line_ok(line@) {
                assert(v@ =~= chars_of_line(line@).subrange(0, ((i + 2) / 2) as int));
            }
        }
        i += 1;
    }
    if n % 2 == 0 {
        // an empty line, or one that ends in a space
        return Err("Non terminals must be one character");
    }
    proof {
        assert(chars_line_ok(line@));
        assert(v@ =~= chars_of_line(line@));
    }
    Ok(v)
}

/// A production line: a single left symbol, an arrow, and the right-hand
/// side, with no second arrow anywhere in it.
pub open spec fn rule_line_ok(s: Seq<char>) -> bool {
    &&& s.len() >= 3
    &&& s[1] == '-'
    &&& s[2] == '>'
    &&& (forall|i: int| #![trigger s[i]] 3 <= i < s.len() - 1 ==> !(s[i] == '-' && s[i + 1] == '>'))
}

/// Splits a production line into its left symbol and right-hand side.
/// A blank line carries no production; any other shape than one symbol, one
/// arrow and a right-hand side is a format error.
pub fn parse_rule_line(line: &String) -> (r: Result<Option<(char, Vec<char>)>, &'static str>)
    ensures
        ((r is Ok) && (r->Ok_0 is None)) <==> line@.len() == 0,
        (r is Ok && r->Ok_0 is Some) <==> rule_line_ok(line@),
        rule_line_ok(line@) ==> (r->Ok_0->Some_0.0 == line@[0] && r->Ok_0->Some_0.1@ == line@.skip(
            3,
        )),
{
    let s = line.as_str();
    let n = s.unicode_len();
    if n == 0 {
        return Ok(None);
    }
    if n < 3 || s.get_char(1) != '-' || s.get_char(2) != '>' {
        return Err("Wrong format of rule");
    }
    let left = s.get_char(0);
    let mut right: Vec<char> = Vec::new();
    let mut i: usize = 3;
    while i < n
        invariant
            s@ == line@,
            n == line@.len(),
            3 <= i <= n,
            right@ =~= line@.subrange(3, i as int),
            forall|k: int|
                #![trigger line@[k]]
                3 <= k < i - 1 ==> !(line@[k] == '-' && line@[k + 1] == '>'),
        decreases n - i,
    {
        let c = s.get_char(i);
        if c == '>' && i >= 4 {
            if s.get_char(i - 1) == '-' {
                proof {
                    assert(line@[i - 1] == '-' && line@[i - 1 + 1] == '>');
                }
                return Err("Wrong format of rule");
            }
        }
        right.push(c);
        i += 1;
    }
    proof {
        assert(right@ =~= line@.skip(3));
        assert(rule_line_ok(line@)) by {
            assert forall|k: int| #![trigger line@[k]] 3 <= k < line@.len() - 1 implies !(
            line@[k] == '-' && line@[k + 1] == '>') by {
                if line@[k] == '-' && line@[k + 1] == '>' {
                    assert(k + 1 <= n - 1);
                }
            }
        }
    }
    Ok(Some((left, right)))
}

} // verus!
