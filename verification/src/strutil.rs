//! Small string helpers shared by the parsing and factoring code.
//!
//! The library does its string work over `Vec<char>`, whose view is the
//! same `Seq<char>` that `&str` and `String` views use; these helpers
//! move between the two shapes.

use vstd::prelude::*;

verus! {

/// Relies on str::chars: yields the characters of the string in order.
#[verifier::external_body]
pub fn chars_of(s: &str) -> (r: Vec<char>)
    ensures
        r@ == s@,
{
    s.chars().collect()
}

/// Relies on String's FromIterator<char>: collects the characters in
/// order.
#[verifier::external_body]
pub fn string_from_chars(v: &Vec<char>) -> (r: String)
    ensures
        r@ == v@,
{
    v.iter().collect()
}

/// Element-wise comparison of two character vectors.
pub fn chars_eq(a: &Vec<char>, b: &Vec<char>) -> (r: bool)
    ensures
        r == (a@ == b@),
{
    if a.len() != b.len() {
        assert(a@ != b@) by {
            assert(a@.len() != b@.len());
        }
        return false;
    }
    let mut i: usize = 0;
    while i < a.len()
        invariant
            i <= a.len(),
            a@.len() == b@.len(),
            forall|j: int| 0 <= j < i ==> a@[j] == b@[j],
        decreases a.len() - i,
    {
        if a[i] != b[i] {
            return false;
        }
        i = i + 1;
    }
    proof {
        assert(a@ =~= b@);
    }
    true
}

/// The views of a vector of character vectors.
pub open spec fn views_of(v: Seq<Vec<char>>) -> Seq<Seq<char>> {
    v.map_values(|x: Vec<char>| x@)
}

/// The views of a doubly nested vector of character vectors.
pub open spec fn views2_of(v: Seq<Vec<Vec<char>>>) -> Seq<Seq<Seq<char>>> {
    v.map_values(|x: Vec<Vec<char>>| views_of(x@))
}

/// The views of a vector of strings.
pub open spec fn views_str(v: Seq<String>) -> Seq<Seq<char>> {
    v.map_values(|s: String| s@)
}

/// ASCII lowercase of one character; anything outside `A..Z` passes
/// through unchanged.
pub open spec fn spec_lower_char(c: char) -> char {
    if 'A' <= c <= 'Z' {
        ((c as u8) + 32) as char
    } else {
        c
    }
}

/// ASCII lowercase of a character sequence.
pub open spec fn spec_lower(s: Seq<char>) -> Seq<char> {
    s.map_values(|c: char| spec_lower_char(c))
}

/// Lowercase a character vector, ASCII-wise.
pub fn lower_chars(s: &Vec<char>) -> (r: Vec<char>)
    ensures
        r@ == spec_lower(s@),
{
    let mut r: Vec<char> = Vec::new();
    let mut i: usize = 0;
    while i < s.len()
        invariant
            i <= s.len(),
            r@ == spec_lower(s@.take(i as int)),
        decreases s.len() - i,
    {
        let c = s[i];
        let lc: char = if c >= 'A' && c <= 'Z' {
            ((c as u8) + 32) as char
        } else {
            c
        };
        r.push(lc);
        proof {
            assert(s@.take(i + 1).drop_last() =~= s@.take(i as int));
            assert(spec_lower(s@.take(i + 1)) =~= spec_lower(s@.take(i as int)).push(
                spec_lower_char(s@[i as int])));
        }
        i = i + 1;
    }
    proof {
        assert(s@.take(s@.len() as int) =~= s@);
    }
    r
}

/// Index of the first occurrence of `sep` in `s`, or `-1` when there
/// is none.
pub open spec fn spec_first_sep(s: Seq<char>, sep: char) -> int
    decreases s.len(),
{
    if s.len() == 0 {
        -1
    } else if s[0] == sep {
        0
    } else {
        let rest = spec_first_sep(s.drop_first(), sep);
        if rest < 0 {
            -1
        } else {
            rest + 1
        }
    }
}

/// The first separator lies within the sequence.
pub proof fn lemma_first_sep_range(s: Seq<char>, sep: char)
    ensures
        -1 <= spec_first_sep(s, sep) < s.len(),
    decreases s.len(),
{
    if s.len() > 0 && s[0] != sep {
        lemma_first_sep_range(s.drop_first(), sep);
    }
}

/// Split `s` on `sep`; leading, trailing or doubled separators yield
/// empty fields.
pub open spec fn spec_split_on(s: Seq<char>, sep: char) -> Seq<Seq<char>>
    decreases s.len(),
    when true
    via spec_split_on_decreases
{
    let d = spec_first_sep(s, sep);
    if d < 0 {
        seq![s]
    } else {
        seq![s.take(d)] + spec_split_on(s.skip(d + 1), sep)
    }
}

#[via_fn]
proof fn spec_split_on_decreases(s: Seq<char>, sep: char) {
    lemma_first_sep_range(s, sep);
}

/// A sequence whose first separator sits at `field.len()` splits into
/// `field` and the split of the rest.
pub proof fn lemma_split_on_at_sep(field: Seq<char>, rest: Seq<char>, sep: char)
    requires
        spec_first_sep(field, sep) < 0,
    ensures
        spec_first_sep(field + seq![sep] + rest, sep) == field.len(),
        spec_split_on(field + seq![sep] + rest, sep) == seq![field] + spec_split_on(
            rest,
            sep,
        ),
    decreases field.len(),
{
    let whole = field + seq![sep] + rest;
    if field.len() == 0 {
        assert(whole[0] == sep);
        assert(whole.take(0) =~= field);
        assert(whole.skip(1) =~= rest);
    } else {
        assert(whole[0] == field[0]);
        assert(field[0] != sep);
        assert(whole.drop_first() =~= field.drop_first() + seq![sep] + rest);
        lemma_split_on_at_sep(field.drop_first(), rest, sep);
        assert(spec_first_sep(whole, sep) == field.len());
        assert(whole.take(field.len() as int) =~= field);
        assert(whole.skip(field.len() as int + 1) =~= rest);
    }
}

/// Appending a non-separator character to a separator-free sequence
/// keeps it separator-free.
pub proof fn lemma_first_sep_push(f: Seq<char>, c: char, sep: char)
    requires
        spec_first_sep(f, sep) < 0,
        c != sep,
    ensures
        spec_first_sep(f.push(c), sep) < 0,
    decreases f.len(),
{
    let g = f.push(c);
    assert(g.len() == f.len() + 1);
    if f.len() == 0 {
        assert(g[0] == c);
        assert(g.drop_first() =~= Seq::<char>::empty());
        assert(spec_first_sep(g.drop_first(), sep) == -1);
        assert(spec_first_sep(g, sep) == -1);
    } else {
        assert(f[0] != sep);
        assert(g[0] == f[0]);
        assert(g.drop_first() =~= f.drop_first().push(c));
        assert(spec_first_sep(f.drop_first(), sep) < 0);
        lemma_first_sep_push(f.drop_first(), c, sep);
        assert(spec_first_sep(g.drop_first(), sep) < 0);
        assert(spec_first_sep(g, sep) == -1);
    }
}

/// Split a character vector on the given separator.
pub fn split_on(s: &Vec<char>, sep: char) -> (r: Vec<Vec<char>>)
    ensures
        views_of(r@) == spec_split_on(s@, sep),
{
    let mut r: Vec<Vec<char>> = Vec::new();
    let mut field: Vec<char> = Vec::new();
    let mut i: usize = 0;
    proof {
        assert(field@ + s@.skip(0) =~= s@);
    }
    while i < s.len()
        invariant
            i <= s.len(),
            spec_split_on(s@, sep) =~= views_of(r@) + spec_split_on(
                field@ + s@.skip(i as int),
                sep,
            ),
            spec_first_sep(field@, sep) < 0,
        decreases s.len() - i,
    {
        let c = s[i];
        let ghost rem = s@.skip(i as int);
        proof {
            assert(rem[0] == s@[i as int]);
        }
        if c == sep {
            proof {
                assert(field@ + rem =~= field@ + seq![sep] + s@.skip(i + 1));
                lemma_split_on_at_sep(field@, s@.skip(i + 1), sep);
            }
            let ghost old_r = views_of(r@);
            let ghost old_field = field@;
            r.push(field);
            field = Vec::new();
            proof {
                assert(views_of(r@) =~= old_r.push(old_field));
                assert(field@ + s@.skip(i + 1) =~= s@.skip(i + 1));
                assert(views_of(r@) + spec_split_on(s@.skip(i + 1), sep) =~= old_r + (
                seq![old_field] + spec_split_on(s@.skip(i + 1), sep)));
            }
        } else {
            proof {
                lemma_first_sep_push(field@, c, sep);
                assert(field@.push(c) + s@.skip(i + 1) =~= field@ + rem);
            }
            field.push(c);
        }
        i = i + 1;
    }
    proof {
        assert(field@ + s@.skip(s@.len() as int) =~= field@);
        assert(spec_split_on(field@, sep) == seq![field@]);
    }
    let ghost old_r = views_of(r@);
    let ghost last_field = field@;
    r.push(field);
    proof {
        assert(views_of(r@) =~= old_r.push(last_field));
        assert(old_r.push(last_field) =~= old_r + seq![last_field]);
    }
    r
}

/// Copy a subrange of a character vector.
pub fn chars_subrange(s: &Vec<char>, from: usize, to: usize) -> (r: Vec<char>)
    requires
        from <= to <= s@.len(),
    ensures
        r@ == s@.subrange(from as int, to as int),
{
    let mut r: Vec<char> = Vec::new();
    let mut i: usize = from;
    while i < to
        invariant
            from <= i <= to <= s@.len(),
            r@ =~= s@.subrange(from as int, i as int),
        decreases to - i,
    {
        r.push(s[i]);
        proof {
            assert(s@.subrange(from as int, i + 1) =~= s@.subrange(
                from as int,
                i as int,
            ).push(s@[i as int]));
        }
        i = i + 1;
    }
    r
}

} // verus!
