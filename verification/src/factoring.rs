//! Site-name factoring.
//!
//! A destination site is identified by its ordered MX host list. To get
//! a compact, canonical key, the host names are lowercased, split on
//! `.`, aligned right-to-left (short names padded with `?`), and the
//! distinct labels of each position are collected in first-seen order.
//! Positions render as the label itself, or as `(a|b|c)` when several
//! labels share the position, with a `?` suffix where padding occurred.

use crate::strutil::{chars_eq, chars_of, lower_chars, spec_lower, spec_split_on, split_on, string_from_chars, views2_of, views_of, views_str};
use vstd::prelude::*;

verus! {

/// The fields of one host name: lowercased, split on `.`, reversed so
/// that position 0 is the top-level label.
pub open spec fn spec_fields(name: Seq<char>) -> Seq<Seq<char>> {
    spec_split_on(spec_lower(name), '.').reverse()
}

/// Greatest field count over all names.
pub open spec fn spec_max_fields(split: Seq<Seq<Seq<char>>>) -> int
    decreases split.len(),
{
    if split.len() == 0 {
        0
    } else {
        let rest = spec_max_fields(split.drop_last());
        if split.last().len() > rest {
            split.last().len() as int
        } else {
            rest
        }
    }
}

/// The label that a name contributes at position `i`: its own field,
/// or the padding label `?` past its length.
pub open spec fn spec_label_at(fields: Seq<Seq<char>>, i: int) -> Seq<char> {
    if i < fields.len() {
        fields[i]
    } else {
        seq!['?']
    }
}

/// Deduplicate, keeping the first occurrence of each element.
pub open spec fn spec_dedup_first(xs: Seq<Seq<char>>) -> Seq<Seq<char>>
    decreases xs.len(),
{
    if xs.len() == 0 {
        Seq::empty()
    } else {
        let rest = spec_dedup_first(xs.drop_last());
        if rest.contains(xs.last()) {
            rest
        } else {
            rest.push(xs.last())
        }
    }
}

/// The distinct labels at position `i`, in first-seen order over the
/// names.
pub open spec fn spec_position_labels(split: Seq<Seq<Seq<char>>>, i: int) -> Seq<
    Seq<char>,
> {
    spec_dedup_first(split.map_values(|fields: Seq<Seq<char>>| spec_label_at(fields, i)))
}

/// Join the sequences with the given separator between them.
pub open spec fn spec_join_with(parts: Seq<Seq<char>>, sep: char) -> Seq<char>
    decreases parts.len(),
{
    if parts.len() == 0 {
        Seq::empty()
    } else if parts.len() == 1 {
        parts[0]
    } else {
        spec_join_with(parts.drop_last(), sep) + seq![sep] + parts.last()
    }
}

/// Render one position: the label itself when unique, an alternation
/// `(a|b|c)` otherwise, with a `?` suffix where padding occurred.
pub open spec fn spec_render_position(split: Seq<Seq<Seq<char>>>, i: int) -> Seq<char> {
    let labels = spec_position_labels(split, i);
    let kept = labels.filter(|l: Seq<char>| l != seq!['?']);
    let text = if kept.len() == 1 {
        kept[0]
    } else {
        seq!['('] + spec_join_with(kept, '|') + seq![')']
    };
    if labels.contains(seq!['?']) {
        text + seq!['?']
    } else {
        text
    }
}

/// The factored name for already split-and-reversed host names.
pub open spec fn spec_factor_of_split(split: Seq<Seq<Seq<char>>>) -> Seq<char> {
    let parts = Seq::new(spec_max_fields(split) as nat, |i: int| spec_render_position(
        split,
        i,
    ));
    spec_join_with(parts.reverse(), '.')
}

/// The factored site name for the given host names: positions rendered
/// from the top-level label down, reversed back into host-name order
/// and joined with `.`.
pub open spec fn spec_factor_names(names: Seq<Seq<char>>) -> Seq<char> {
    spec_factor_of_split(names.map_values(|n: Seq<char>| spec_fields(n)))
}

/// Reverse a vector of character vectors.
fn reverse_fields(v: Vec<Vec<char>>) -> (r: Vec<Vec<char>>)
    ensures
        views_of(r@) == views_of(v@).reverse(),
{
    let ghost vs = views_of(v@);
    let mut r: Vec<Vec<char>> = Vec::new();
    let mut i: usize = v.len();
    while i > 0
        invariant
            i <= v.len(),
            vs == views_of(v@),
            views_of(r@) =~= vs.reverse().take(v@.len() - i),
        decreases i,
    {
        i = i - 1;
        let ghost old_r = views_of(r@);
        let f = copy_field(&v, i);
        r.push(f);
        proof {
            assert(views_of(r@) =~= old_r.push(vs[i as int]));
            assert(vs.reverse().take(v@.len() - i) =~= vs.reverse().take(
                v@.len() - i - 1,
            ).push(vs[i as int]));
        }
    }
    proof {
        assert(vs.reverse().take(vs.len() as int) =~= vs.reverse());
    }
    r
}

/// Clone the field at `idx`.
fn copy_field(v: &Vec<Vec<char>>, idx: usize) -> (r: Vec<char>)
    requires
        idx < v@.len(),
    ensures
        r@ == views_of(v@)[idx as int],
{
    let src = &v[idx];
    let mut r: Vec<char> = Vec::new();
    let mut j: usize = 0;
    while j < src.len()
        invariant
            j <= src@.len(),
            r@ =~= src@.take(j as int),
        decreases src.len() - j,
    {
        r.push(src[j]);
        proof {
            assert(src@.take(j + 1) =~= src@.take(j as int).push(src@[j as int]));
        }
        j = j + 1;
    }
    proof {
        assert(src@.take(src@.len() as int) =~= src@);
    }
    r
}

/// Whether `x` occurs in `list`.
fn contains_field(list: &Vec<Vec<char>>, x: &Vec<char>) -> (r: bool)
    ensures
        r == views_of(list@).contains(x@),
{
    let mut i: usize = 0;
    while i < list.len()
        invariant
            i <= list@.len(),
            forall|j: int| 0 <= j < i ==> views_of(list@)[j] != x@,
        decreases list.len() - i,
    {
        if chars_eq(&list[i], x) {
            proof {
                assert(views_of(list@)[i as int] == x@);
            }
            return true;
        }
        i = i + 1;
    }
    false
}

/// Append `src` to `out`.
fn extend_chars(out: &mut Vec<char>, src: &Vec<char>)
    ensures
        final(out)@ == old(out)@ + src@,
{
    let mut j: usize = 0;
    while j < src.len()
        invariant
            j <= src@.len(),
            out@ =~= old(out)@ + src@.take(j as int),
        decreases src.len() - j,
    {
        out.push(src[j]);
        proof {
            assert(old(out)@ + src@.take(j + 1) =~= (old(out)@ + src@.take(
                j as int,
            )).push(src@[j as int]));
        }
        j = j + 1;
    }
    proof {
        assert(old(out)@ + src@.take(src@.len() as int) =~= old(out)@ + src@);
    }
}

/// Produce a pseudo-regex style alternation of the host names' labels,
/// factoring the components they share.
pub fn factor_names(names: &Vec<String>) -> (r: String)
    ensures
        r@ == spec_factor_names(views_str(names@)),
{
    let ghost names_seq = views_str(names@);
    let ghost split_seq = names_seq.map_values(|n: Seq<char>| spec_fields(n));

    // split each name into lowercased fields, top-level label first
    let mut split: Vec<Vec<Vec<char>>> = Vec::new();
    let mut k: usize = 0;
    while k < names.len()
        invariant
            k <= names@.len(),
            names_seq == views_str(names@),
            split_seq == names_seq.map_values(|n: Seq<char>| spec_fields(n)),
            views2_of(split@) =~= split_seq.take(k as int),
        decreases names.len() - k,
    {
        let cs = chars_of(names[k].as_str());
        let lowered = lower_chars(&cs);
        let fields = reverse_fields(split_on(&lowered, '.'));
        let ghost old_split = views2_of(split@);
        split.push(fields);
        proof {
            assert(views2_of(split@) =~= old_split.push(views_of(fields@)));
            assert(views_of(fields@) == spec_fields(names_seq[k as int]));
            assert(split_seq.take(k + 1) =~= split_seq.take(k as int).push(
                split_seq[k as int]));
        }
        k = k + 1;
    }
    proof {
        assert(split_seq.take(names_seq.len() as int) =~= split_seq);
    }

    // the longest name decides how many positions there are
    let mut max_count: usize = 0;
    let mut k2: usize = 0;
    while k2 < split.len()
        invariant
            k2 <= split@.len(),
            views2_of(split@) == split_seq,
            max_count == spec_max_fields(split_seq.take(k2 as int)),
        decreases split.len() - k2,
    {
        proof {
            assert(split_seq[k2 as int] == views_of(split@[k2 as int]@));
            assert(split_seq[k2 as int].len() == split@[k2 as int]@.len());
        }
        if split[k2].len() > max_count {
            max_count = split[k2].len();
        }
        proof {
            assert(split_seq.take(k2 + 1).drop_last() =~= split_seq.take(k2 as int));
            assert(split_seq.take(k2 + 1).last() == split_seq[k2 as int]);
        }
        k2 = k2 + 1;
    }
    proof {
        assert(split_seq.take(split_seq.len() as int) =~= split_seq);
    }

    // render each position, top-level label first
    let mut parts: Vec<Vec<char>> = Vec::new();
    let mut i: usize = 0;
    while i < max_count
        invariant
            i <= max_count,
            views2_of(split@) == split_seq,
            max_count == spec_max_fields(split_seq),
            views_of(parts@) =~= Seq::new(i as nat, |p: int| spec_render_position(
                split_seq,
                p,
            )),
        decreases max_count - i,
    {
        let ghost entries = split_seq.map_values(
            |fields: Seq<Seq<char>>| spec_label_at(fields, i as int),
        );
        // the distinct labels of this position, in first-seen order
        let mut labels: Vec<Vec<char>> = Vec::new();
        let mut k3: usize = 0;
        while k3 < split.len()
            invariant
                k3 <= split@.len(),
                views2_of(split@) == split_seq,
                entries == split_seq.map_values(
                    |fields: Seq<Seq<char>>| spec_label_at(fields, i as int),
                ),
                views_of(labels@) =~= spec_dedup_first(entries.take(k3 as int)),
            decreases split.len() - k3,
        {
            proof {
                assert(split_seq[k3 as int] == views_of(split@[k3 as int]@));
            }
            let entry: Vec<char> = if i < split[k3].len() {
                copy_field(&split[k3], i)
            } else {
                let mut q: Vec<char> = Vec::new();
                q.push('?');
                proof {
                    assert(q@ =~= seq!['?']);
                }
                q
            };
            proof {
                assert(entry@ == entries[k3 as int]);
                assert(entries.take(k3 + 1).drop_last() =~= entries.take(k3 as int));
                assert(entries.take(k3 + 1).last() == entries[k3 as int]);
            }
            if !contains_field(&labels, &entry) {
                let ghost old_labels = views_of(labels@);
                labels.push(entry);
                proof {
                    assert(views_of(labels@) =~= old_labels.push(entries[k3 as int]));
                }
            }
            k3 = k3 + 1;
        }
        proof {
            assert(entries.take(entries.len() as int) =~= entries);
        }
        let ghost labels_seq = spec_position_labels(split_seq, i as int);
        proof {
            assert(views_of(labels@) == labels_seq);
        }

        // strip the padding label and render
        let mut qmark: Vec<char> = Vec::new();
        qmark.push('?');
        proof {
            assert(qmark@ =~= seq!['?']);
        }
        let has_q = contains_field(&labels, &qmark);
        let mut kept: Vec<Vec<char>> = Vec::new();
        let mut k4: usize = 0;
        while k4 < labels.len()
            invariant
                k4 <= labels@.len(),
                views_of(labels@) == labels_seq,
                qmark@ == seq!['?'],
                views_of(kept@) =~= labels_seq.take(k4 as int).filter(
                    |l: Seq<char>| l != seq!['?'],
                ),
            decreases labels.len() - k4,
        {
            let keep = !chars_eq(&labels[k4], &qmark);
            proof {
                assert(labels_seq.take(k4 + 1).drop_last() =~= labels_seq.take(
                    k4 as int,
                ));
                reveal(Seq::filter);
            }
            if keep {
                let l = copy_field(&labels, k4);
                let ghost old_kept = views_of(kept@);
                kept.push(l);
                proof {
                    assert(views_of(kept@) =~= old_kept.push(labels_seq[k4 as int]));
                }
            }
            k4 = k4 + 1;
        }
        proof {
            assert(labels_seq.take(labels_seq.len() as int) =~= labels_seq);
        }
        let ghost kept_seq = labels_seq.filter(|l: Seq<char>| l != seq!['?']);

        let mut text: Vec<char> = Vec::new();
        if kept.len() == 1 {
            let l = copy_field(&kept, 0);
            extend_chars(&mut text, &l);
            proof {
                assert(text@ =~= kept_seq[0]);
            }
        } else {
            text.push('(');
            proof {
                assert(text@ =~= seq!['(']);
            }
            let mut k5: usize = 0;
            while k5 < kept.len()
                invariant
                    k5 <= kept@.len(),
                    views_of(kept@) == kept_seq,
                    text@ =~= seq!['('] + spec_join_with(kept_seq.take(k5 as int), '|'),
                decreases kept.len() - k5,
            {
                if k5 > 0 {
                    text.push('|');
                }
                let l = copy_field(&kept, k5);
                extend_chars(&mut text, &l);
                proof {
                    lemma_join_take_step(kept_seq, k5 as int, '|');
                }
                k5 = k5 + 1;
            }
            proof {
                assert(kept_seq.take(kept_seq.len() as int) =~= kept_seq);
            }
            text.push(')');
        }
        if has_q {
            text.push('?');
        }
        proof {
            assert(text@ == spec_render_position(split_seq, i as int));
        }
        let ghost old_parts = views_of(parts@);
        parts.push(text);
        proof {
            assert(views_of(parts@) =~= old_parts.push(spec_render_position(
                split_seq,
                i as int,
            )));
            assert(views_of(parts@) =~= Seq::new((i + 1) as nat, |p: int|
                spec_render_position(split_seq, p)));
        }
        i = i + 1;
    }

    // back into host-name order, joined with dots
    let rev = reverse_fields(parts);
    let ghost rev_seq = Seq::new(spec_max_fields(split_seq) as nat, |p: int|
        spec_render_position(split_seq, p)).reverse();
    proof {
        assert(views_of(rev@) =~= rev_seq);
    }
    let mut out: Vec<char> = Vec::new();
    let mut k6: usize = 0;
    while k6 < rev.len()
        invariant
            k6 <= rev@.len(),
            views_of(rev@) == rev_seq,
            out@ =~= spec_join_with(rev_seq.take(k6 as int), '.'),
        decreases rev.len() - k6,
    {
        if k6 > 0 {
            out.push('.');
        }
        let l = copy_field(&rev, k6);
        extend_chars(&mut out, &l);
        proof {
            lemma_join_take_step(rev_seq, k6 as int, '.');
        }
        k6 = k6 + 1;
    }
    proof {
        assert(rev_seq.take(rev_seq.len() as int) =~= rev_seq);
    }
    string_from_chars(&out)
}

/// One step of joining: adding element `k` extends the joined prefix by
/// a separator (past the first element) and the element itself.
proof fn lemma_join_take_step(parts: Seq<Seq<char>>, k: int, sep: char)
    requires
        0 <= k < parts.len(),
    ensures
        k == 0 ==> spec_join_with(parts.take(1), sep) =~= spec_join_with(
            parts.take(0),
            sep,
        ) + parts[0],
        k > 0 ==> spec_join_with(parts.take(k + 1), sep) =~= spec_join_with(
            parts.take(k),
            sep,
        ) + seq![sep] + parts[k],
{
    if k == 0 {
        assert(parts.take(1).len() == 1);
        assert(parts.take(1)[0] == parts[0]);
        assert(spec_join_with(parts.take(0), sep) =~= Seq::<char>::empty());
        assert(spec_join_with(parts.take(1), sep) =~= parts[0]);
    } else {
        assert(parts.take(k + 1).len() == k + 1);
        assert(parts.take(k + 1).drop_last() =~= parts.take(k));
        assert(parts.take(k + 1).last() == parts[k]);
    }
}

/// Lowercasing is idempotent, character by character.
proof fn lemma_lower_idempotent(n: Seq<char>)
    ensures
        spec_lower(spec_lower(n)) =~= spec_lower(n),
{
    assert forall|i: int| 0 <= i < n.len() implies spec_lower(spec_lower(n))[i]
        == spec_lower(n)[i] by {
        let c = n[i];
        assert(spec_lower(n)[i] == crate::strutil::spec_lower_char(c));
    }
}

/// LAW (name-factoring determinism, case part): factoring is blind to
/// the case of its input; host names that differ only in ASCII case
/// produce the same site name.
pub proof fn lemma_factor_names_case_insensitive(names: Seq<Seq<char>>)
    ensures
        spec_factor_names(names.map_values(|n: Seq<char>| spec_lower(n)))
            == spec_factor_names(names),
{
    let lowered = names.map_values(|n: Seq<char>| spec_lower(n));
    assert(lowered.map_values(|n: Seq<char>| spec_fields(n)) =~= names.map_values(
        |n: Seq<char>| spec_fields(n),
    )) by {
        assert forall|i: int| 0 <= i < names.len() implies spec_fields(lowered[i])
            == spec_fields(names[i]) by {
            lemma_lower_idempotent(names[i]);
        }
    }
}

} // verus!
