//! The export-settings bookkeeping: which branches a repository shares.
//!
//! The stored form is one branch name per line, kept sorted and free of
//! duplicates. Reading and writing the settings file is file work that
//! stays outside the library; these functions turn file content into
//! branch lists and updated branch lists back into file content.

use crate::codec::NEWLINE;
use crate::util::{
    bytes_lt, contains_bytes, copy_bytes, join_bytes, join_with, lemma_insert_to_set,
    lemma_lex_le_antisymmetric, lemma_lex_le_total, lemma_lex_lt_transitive, lemma_push_to_set,
    lex_le, lex_lt, split_bytes, split_on, views_of,
};
use vstd::prelude::*;

verus! {

/// Strictly sorted in the lexicographic order: sorted, with no entry
/// repeated.
pub open spec fn strictly_sorted(s: Seq<Seq<u8>>) -> bool {
    forall|i: int, j: int| 0 <= i < j < s.len() ==> lex_lt(s[i], s[j])
}

/// Dropping the head of a strictly sorted list removes exactly it from
/// the set of entries.
proof fn lemma_strictly_sorted_tail_set(s: Seq<Seq<u8>>)
    requires
        strictly_sorted(s),
        s.len() > 0,
    ensures
        s.skip(1).to_set() == s.to_set().remove(s[0]),
{
    assert forall|y: Seq<u8>| s.skip(1).to_set().contains(y) implies s.to_set().remove(
        s[0],
    ).contains(y) by {
        let k = choose|k: int| 0 <= k < s.skip(1).len() && s.skip(1)[k] == y;
        assert(s[k + 1] == y);
        assert(lex_lt(s[0], s[k + 1]));
    }
    assert forall|y: Seq<u8>| s.to_set().remove(s[0]).contains(y) implies s.skip(
        1,
    ).to_set().contains(y) by {
        let k = choose|k: int| 0 <= k < s.len() && s[k] == y;
        assert(k != 0);
        assert(s.skip(1)[k - 1] == y);
    }
    assert(s.skip(1).to_set() =~= s.to_set().remove(s[0]));
}

/// The stored form is canonical: a strictly sorted list is determined by
/// its set of entries, so any two stores holding the same branches hold
/// the same bytes.
pub proof fn lemma_strictly_sorted_canonical(s1: Seq<Seq<u8>>, s2: Seq<Seq<u8>>)
    requires
        strictly_sorted(s1),
        strictly_sorted(s2),
        s1.to_set() == s2.to_set(),
    ensures
        s1 == s2,
    decreases s1.len(),
{
    if s1.len() == 0 {
        if s2.len() > 0 {
            assert(s2.to_set().contains(s2[0]));
            assert(s1.to_set().contains(s2[0]));
        }
        assert(s1 =~= s2);
    } else if s2.len() == 0 {
        assert(s1.to_set().contains(s1[0]));
        assert(s2.to_set().contains(s1[0]));
    } else {
        assert(s1.to_set().contains(s1[0]));
        assert(s2.to_set().contains(s1[0]));
        let j = choose|j: int| 0 <= j < s2.len() && s2[j] == s1[0];
        assert(s2.to_set().contains(s2[0]));
        assert(s1.to_set().contains(s2[0]));
        let i = choose|i: int| 0 <= i < s1.len() && s1[i] == s2[0];
        if i > 0 && j > 0 {
            assert(lex_lt(s1[0], s1[i]));
            assert(lex_lt(s2[0], s2[j]));
            lemma_lex_le_antisymmetric(s1[0], s2[0]);
        }
        assert(s1[0] == s2[0]);
        lemma_strictly_sorted_tail_set(s1);
        lemma_strictly_sorted_tail_set(s2);
        assert(strictly_sorted(s1.skip(1))) by {
            assert forall|a: int, b: int| 0 <= a < b < s1.skip(1).len() implies lex_lt(
                s1.skip(1)[a],
                s1.skip(1)[b],
            ) by {
                assert(lex_lt(s1[a + 1], s1[b + 1]));
            }
        }
        assert(strictly_sorted(s2.skip(1))) by {
            assert forall|a: int, b: int| 0 <= a < b < s2.skip(1).len() implies lex_lt(
                s2.skip(1)[a],
                s2.skip(1)[b],
            ) by {
                assert(lex_lt(s2[a + 1], s2[b + 1]));
            }
        }
        lemma_strictly_sorted_canonical(s1.skip(1), s2.skip(1));
        assert(s1 =~= seq![s1[0]] + s1.skip(1));
        assert(s2 =~= seq![s2[0]] + s2.skip(1));
    }
}

/// Puts one branch name in its place in a sorted, duplicate-free list;
/// a name already present is left alone.
fn insert_sorted(list: &mut Vec<Vec<u8>>, item: Vec<u8>)
    requires
        strictly_sorted(views_of(old(list)@)),
    ensures
        strictly_sorted(views_of(final(list)@)),
        views_of(final(list)@).to_set() == views_of(old(list)@).to_set().insert(item@),
{
    let ghost item_view = item@;
    let ghost old_views = views_of(list@);
    let mut p: usize = 0;
    while p < list.len() && bytes_lt(list[p].as_slice(), item.as_slice())
        invariant
            p <= list@.len(),
            list@ == old(list)@,
            item@ == item_view,
            forall|r: int| 0 <= r < p ==> lex_lt(#[trigger] views_of(list@)[r], item_view),
        decreases list@.len() - p,
    {
        p += 1;
    }
    if p < list.len() && crate::util::bytes_eq(list[p].as_slice(), item.as_slice()) {
        proof {
            assert(views_of(list@)[p as int] == item_view);
            assert(views_of(list@).to_set().contains(item_view));
            assert(views_of(list@).to_set() =~= old_views.to_set().insert(item_view));
        }
    } else {
        proof {
            if p < list@.len() {
                assert(!lex_lt(old_views[p as int], item_view));
                assert(old_views[p as int] != item_view);
                lemma_lex_le_total(old_views[p as int], item_view);
                assert(lex_lt(item_view, old_views[p as int]));
            }
        }
        list.insert(p, item);
        proof {
            assert(views_of(list@) =~= old_views.insert(p as int, item_view));
            lemma_insert_to_set(old_views, p as int, item_view);
            assert(views_of(list@).to_set() == old_views.to_set().insert(item_view));
            let nv = views_of(list@);
            assert forall|i: int, j: int| 0 <= i < j < nv.len() implies lex_lt(nv[i], nv[j]) by {
                if j < p {
                    assert(lex_lt(old_views[i], old_views[j]));
                } else if i < p && j == p {
                    assert(lex_lt(old_views[i], item_view));
                } else if i < p && j > p {
                    assert(lex_lt(old_views[i], old_views[j - 1]));
                } else if i == p {
                    if j == p + 1 {
                        assert(lex_lt(item_view, old_views[j - 1]));
                    } else {
                        assert(lex_lt(item_view, old_views[p as int]));
                        assert(lex_lt(old_views[p as int], old_views[j - 1]));
                        lemma_lex_lt_transitive(
                            item_view,
                            old_views[p as int],
                            old_views[j - 1],
                        );
                    }
                } else {
                    assert(lex_lt(old_views[i - 1], old_views[j - 1]));
                }
            }
        }
    }
}

/// Adds branches to the shared set: the result is the union of the old
/// and the new names, sorted and free of duplicates.
pub fn add_branches(old_branches: &Vec<Vec<u8>>, new_branches: &Vec<Vec<u8>>) -> (r: Vec<Vec<u8>>)
    ensures
        strictly_sorted(views_of(r@)),
        views_of(r@).to_set() == views_of(old_branches@).to_set().union(
            views_of(new_branches@).to_set(),
        ),
{
    let mut out: Vec<Vec<u8>> = Vec::new();
    let mut i: usize = 0;
    proof {
        assert(views_of(out@).to_set() =~= views_of(old_branches@).take(0).to_set());
    }
    while i < old_branches.len()
        invariant
            i <= old_branches@.len(),
            strictly_sorted(views_of(out@)),
            views_of(out@).to_set() == views_of(old_branches@).take(i as int).to_set(),
        decreases old_branches@.len() - i,
    {
        insert_sorted(&mut out, copy_bytes(old_branches[i].as_slice()));
        proof {
            assert(views_of(old_branches@).take(i + 1) =~= views_of(old_branches@).take(
                i as int,
            ).push(views_of(old_branches@)[i as int]));
            lemma_push_to_set(
                views_of(old_branches@).take(i as int),
                views_of(old_branches@)[i as int],
            );
        }
        i += 1;
    }
    proof {
        assert(views_of(old_branches@).take(old_branches@.len() as int) =~= views_of(
            old_branches@,
        ));
    }
    let mut j: usize = 0;
    proof {
        assert(views_of(new_branches@).take(0).to_set() =~= Set::<Seq<u8>>::empty());
        assert(views_of(out@).to_set() =~= views_of(old_branches@).to_set().union(
            views_of(new_branches@).take(0).to_set(),
        ));
    }
    while j < new_branches.len()
        invariant
            j <= new_branches@.len(),
            strictly_sorted(views_of(out@)),
            views_of(out@).to_set() == views_of(old_branches@).to_set().union(
                views_of(new_branches@).take(j as int).to_set(),
            ),
        decreases new_branches@.len() - j,
    {
        insert_sorted(&mut out, copy_bytes(new_branches[j].as_slice()));
        proof {
            assert(views_of(new_branches@).take(j + 1) =~= views_of(new_branches@).take(
                j as int,
            ).push(views_of(new_branches@)[j as int]));
            lemma_push_to_set(
                views_of(new_branches@).take(j as int),
                views_of(new_branches@)[j as int],
            );
            assert(views_of(out@).to_set() =~= views_of(old_branches@).to_set().union(
                views_of(new_branches@).take(j + 1).to_set(),
            ));
        }
        j += 1;
    }
    proof {
        assert(views_of(new_branches@).take(new_branches@.len() as int) =~= views_of(
            new_branches@,
        ));
    }
    out
}

/// Removes branches from the shared set: the result is the old names
/// without the removed ones, sorted and free of duplicates.
pub fn remove(old_branches: &Vec<Vec<u8>>, del_branches: &Vec<Vec<u8>>) -> (r: Vec<Vec<u8>>)
    ensures
        strictly_sorted(views_of(r@)),
        views_of(r@).to_set() == views_of(old_branches@).to_set().difference(
            views_of(del_branches@).to_set(),
        ),
{
    let mut out: Vec<Vec<u8>> = Vec::new();
    let mut i: usize = 0;
    proof {
        assert(views_of(out@).to_set() =~= views_of(old_branches@).take(0).to_set().difference(
            views_of(del_branches@).to_set(),
        ));
    }
    while i < old_branches.len()
        invariant
            i <= old_branches@.len(),
            strictly_sorted(views_of(out@)),
            views_of(out@).to_set() == views_of(old_branches@).take(i as int).to_set().difference(
                views_of(del_branches@).to_set(),
            ),
        decreases old_branches@.len() - i,
    {
        proof {
            assert(views_of(old_branches@).take(i + 1) =~= views_of(old_branches@).take(
                i as int,
            ).push(views_of(old_branches@)[i as int]));
            lemma_push_to_set(
                views_of(old_branches@).take(i as int),
                views_of(old_branches@)[i as int],
            );
        }
        if !contains_bytes(del_branches, old_branches[i].as_slice()) {
            insert_sorted(&mut out, copy_bytes(old_branches[i].as_slice()));
            proof {
                assert(views_of(out@).to_set() =~= views_of(old_branches@).take(
                    i + 1,
                ).to_set().difference(views_of(del_branches@).to_set()));
            }
        } else {
            proof {
                assert(views_of(out@).to_set() =~= views_of(old_branches@).take(
                    i + 1,
                ).to_set().difference(views_of(del_branches@).to_set()));
            }
        }
        i += 1;
    }
    proof {
        assert(views_of(old_branches@).take(old_branches@.len() as int) =~= views_of(
            old_branches@,
        ));
    }
    out
}

/// The nonempty entries of a sequence of lines, in order.
pub open spec fn nonempty_of(lines: Seq<Seq<u8>>) -> Seq<Seq<u8>>
    decreases lines.len(),
{
    if lines.len() == 0 {
        Seq::empty()
    } else if lines.last().len() > 0 {
        nonempty_of(lines.drop_last()).push(lines.last())
    } else {
        nonempty_of(lines.drop_last())
    }
}

/// The branch names a settings file holds: its nonempty lines, in order.
pub fn parse_branches(content: &[u8]) -> (r: Vec<Vec<u8>>)
    ensures
        views_of(r@) == nonempty_of(split_on(content@, NEWLINE)),
{
    let lines = split_bytes(content, NEWLINE);
    let ghost line_views = split_on(content@, NEWLINE);
    let mut out: Vec<Vec<u8>> = Vec::new();
    let mut i: usize = 0;
    proof {
        assert(line_views.take(0) =~= Seq::<Seq<u8>>::empty());
        assert(views_of(out@) =~= nonempty_of(line_views.take(0)));
    }
    while i < lines.len()
        invariant
            i <= lines@.len(),
            views_of(lines@) == line_views,
            views_of(out@) == nonempty_of(line_views.take(i as int)),
        decreases lines@.len() - i,
    {
        proof {
            assert(line_views.take(i + 1).drop_last() =~= line_views.take(i as int));
            assert(line_views.take(i + 1).last() == line_views[i as int]);
        }
        if lines[i].len() > 0 {
            let ghost old_views = views_of(out@);
            out.push(copy_bytes(lines[i].as_slice()));
            proof {
                assert(views_of(out@) =~= old_views.push(line_views[i as int]));
            }
        }
        i += 1;
    }
    proof {
        assert(line_views.take(line_views.len() as int) =~= line_views);
    }
    out
}

/// The stored form of a branch list: one name per line.
pub fn render_branches(branches: &Vec<Vec<u8>>) -> (r: Vec<u8>)
    ensures
        r@ == join_with(views_of(branches@), NEWLINE),
{
    join_bytes(branches, NEWLINE)
}

} // verus!
