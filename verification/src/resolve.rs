//! The computing half of MX resolution.
//!
//! The DNS lookups happen in the host program; given their answers,
//! the routing rule is fixed: an empty MX answer (or a name that only
//! has an address record) routes to the domain itself, and otherwise
//! the exchanges of each preference group are sorted and the groups
//! are concatenated in preference order.

use crate::strutil::views_str;
use vstd::prelude::*;

verus! {

/// The views of a list of preference groups.
pub open spec fn views_groups(v: Seq<Vec<String>>) -> Seq<Seq<Seq<char>>> {
    v.map_values(|g: Vec<String>| views_str(g@))
}

/// Lexicographic order on character sequences, by code point; equal
/// sequences compare as less-or-equal.
pub open spec fn spec_chars_le(a: Seq<char>, b: Seq<char>) -> bool
    decreases a.len(),
{
    if a.len() == 0 {
        true
    } else if b.len() == 0 {
        false
    } else if a[0] != b[0] {
        (a[0] as int) < (b[0] as int)
    } else {
        spec_chars_le(a.drop_first(), b.drop_first())
    }
}

/// Ascending adjacent order over a run of names.
pub open spec fn spec_sorted_names(v: Seq<Seq<char>>) -> bool {
    forall|i: int| 0 <= i < v.len() - 1 ==> spec_chars_le(#[trigger] v[i], v[i + 1])
}

/// Relies on Vec::sort of the std library: ascending order (String's
/// `Ord` is byte-lexicographic, which on UTF-8 text equals the
/// code-point order of `spec_chars_le`), and a permutation of the
/// input.
#[verifier::external_body]
fn sort_names(v: &mut Vec<String>)
    ensures
        views_str(final(v)@).to_multiset() == views_str(old(v)@).to_multiset(),
        spec_sorted_names(views_str(final(v)@)),
        final(v)@.len() == old(v)@.len(),
{
    v.sort();
}

/// One preference group of sorted exchanges, then the rest.
pub open spec fn spec_grouped_hosts(groups: Seq<Seq<Seq<char>>>, out: Seq<Seq<char>>) -> bool
    decreases groups.len(),
{
    if groups.len() == 0 {
        out.len() == 0
    } else {
        exists|k: int|
            0 <= k <= out.len() && spec_sorted_names(#[trigger] out.take(k)) && out.take(
                k,
            ).to_multiset() == groups.first().to_multiset() && spec_grouped_hosts(
                groups.drop_first(),
                out.skip(k),
            )
    }
}

/// Turn the MX answer into the ordered host list: no exchanges at all
/// routes to the domain itself; otherwise each preference group is
/// sorted and the groups are kept in preference order.
pub fn hosts_from_mx(domain: &String, groups: Vec<Vec<String>>) -> (r: Vec<String>)
    ensures
        groups@.len() == 0 ==> views_str(r@) == seq![domain@],
        groups@.len() > 0 ==> spec_grouped_hosts(
            views_groups(groups@),
            views_str(r@),
        ),
{
    if groups.len() == 0 {
        let mut r: Vec<String> = Vec::new();
        r.push(domain.clone());
        proof {
            assert(views_str(r@) =~= seq![domain@]);
        }
        return r;
    }
    let ghost gv = views_groups(groups@);
    let mut out: Vec<String> = Vec::new();
    let mut rest = groups;
    let ghost mut j: int = gv.len() as int;
    proof {
        assert(views_groups(rest@) =~= gv.skip(0));
        assert(gv.skip(j) =~= Seq::<Seq<Seq<char>>>::empty());
        assert(views_str(out@) =~= Seq::<Seq<char>>::empty());
    }
    while rest.len() > 0
        invariant
            0 <= j <= gv.len(),
            rest@.len() == j,
            views_groups(rest@) =~= gv.take(j),
            spec_grouped_hosts(gv.skip(j), views_str(out@)),
        decreases rest@.len(),
    {
        let ghost rbefore = rest@;
        let mut g = match rest.pop() {
            Some(g) => g,
            None => {
                proof {
                    assert(false);
                }
                return out;
            },
        };
        proof {
            assert(g == rbefore.last());
            assert(views_groups(rbefore).len() == rbefore.len());
            assert(rbefore.len() == j);
            assert(views_groups(rbefore) =~= gv.take(j));
            assert(views_groups(rbefore)[j - 1] == views_str(rbefore[j - 1]@));
            assert(g == rbefore[j - 1]);
            assert(gv.take(j)[j - 1] == gv[j - 1]);
            assert(views_str(g@) == gv[j - 1]);
            assert(views_groups(rest@) =~= gv.take(j - 1))
                by {
                assert(rest@ =~= rbefore.drop_last());
                assert forall|m: int| 0 <= m < rest@.len() implies rest@.map_values(
                    |gg: Vec<String>| views_str(gg@),
                )[m] == #[trigger] (gv.take(j - 1)[m]) by {
                    assert(rest@[m] == rbefore[m]);
                    assert(views_groups(rbefore)[m]
                        == gv.take(j)[m]);
                }
            }
        }
        sort_names(&mut g);
        let ghost sorted_view = views_str(g@);
        let ghost old_out = views_str(out@);
        let mut tail = out;
        let ghost block_len = g@.len() as int;
        out = g;
        let mut tail = tail;
        append_names(&mut out, &mut tail);
        proof {
            assert(views_str(out@) =~= sorted_view + old_out);
            let combined = views_str(out@);
            assert(combined.take(block_len) =~= sorted_view);
            assert(combined.skip(block_len) =~= old_out);
            assert(spec_grouped_hosts(gv.skip(j - 1), combined)) by {
                assert(gv.skip(j - 1).first() == gv[j - 1]);
                assert(gv.skip(j - 1).drop_first() =~= gv.skip(j));
                assert(0 <= block_len <= combined.len() && spec_sorted_names(
                    combined.take(block_len),
                ) && combined.take(block_len).to_multiset() == gv.skip(
                    j - 1,
                ).first().to_multiset() && spec_grouped_hosts(
                    gv.skip(j - 1).drop_first(),
                    combined.skip(block_len),
                ));
            }
            j = j - 1;
        }
    }
    proof {
        assert(gv.skip(0) =~= gv);
    }
    out
}

/// Move every name of `src` to the end of `dst`.
fn append_names(dst: &mut Vec<String>, src: &mut Vec<String>)
    ensures
        views_str(final(dst)@) == views_str(old(dst)@) + views_str(old(src)@),
        final(src)@.len() == 0,
{
    let ghost dv = views_str(dst@);
    let ghost sv = views_str(src@);
    let ghost mut k: int = 0;
    proof {
        assert(views_str(dst@) =~= dv + sv.take(0));
        assert(views_str(src@) =~= sv.skip(0));
    }
    while src.len() > 0
        invariant
            0 <= k <= sv.len(),
            views_str(src@) =~= sv.skip(k),
            views_str(dst@) =~= dv + sv.take(k),
        decreases src@.len(),
    {
        let ghost sbefore = src@;
        let s = src.remove(0);
        proof {
            assert(views_str(sbefore).len() == sbefore.len());
            assert(sbefore.len() > 0);
            assert(views_str(sbefore) =~= sv.skip(k));
            assert(views_str(sbefore)[0] == sbefore[0]@);
            assert(s == sbefore[0]);
            assert(sv.skip(k)[0] == sv[k]);
            assert(s@ == sv[k]);
            assert(src@ =~= sbefore.drop_first());
            assert(views_str(src@) =~= sv.skip(k + 1)) by {
                assert forall|m: int| 0 <= m < src@.len() implies views_str(
                    src@,
                )[m] == #[trigger] (sv.skip(k + 1)[m]) by {
                    assert(src@[m] == sbefore[m + 1]);
                    assert(views_str(sbefore)[m + 1] == sv.skip(k)[m + 1]);
                }
            }
        }
        let ghost old_dst = views_str(dst@);
        dst.push(s);
        proof {
            assert(views_str(dst@) =~= old_dst.push(sv[k]));
            assert(sv.take(k + 1) =~= sv.take(k).push(sv[k]));
            assert(dv + sv.take(k + 1) =~= (dv + sv.take(k)).push(sv[k]));
            k = k + 1;
        }
    }
    proof {
        assert(sv.take(k) =~= sv);
    }
}

} // verus!
