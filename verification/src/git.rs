//! The pure side of the git helpers: parsing the reference listing,
//! selecting the advertised branches a caller asked for, the bookkeeping
//! for the ignore file, and the name of the persisted pack file.
//!
//! Running `git ls-remote` or `git-upload-pack`, and touching the ignore
//! file itself, is process and file work that stays outside the library;
//! these functions are handed the bytes and give back plain values.

use crate::util::{
    append_bytes, contains_bytes, copy_bytes, lemma_push_to_set, split_bytes, split_on, views_of,
};
use vstd::prelude::*;
use vstd::string::StringExecFns;

verus! {

/// One advertised reference: its fully-qualified name and the commit hash
/// it points at, as the ASCII bytes of the listing.
pub struct Ref {
    pub name: Vec<u8>,
    pub hash: Vec<u8>,
}

/// The byte value of the tab that separates hash from name in a listing.
pub const TAB: u8 = 9;

/// The byte value of the newline that separates listing lines.
pub const LINE_FEED: u8 = 10;

/// The bytes of `"refs/heads/"`, the namespace of branch refs.
pub open spec fn refs_heads_prefix() -> Seq<u8> {
    seq![114u8, 101u8, 102u8, 115u8, 47u8, 104u8, 101u8, 97u8, 100u8, 115u8, 47u8]
}

/// The bytes of `".gtr"`, the settings folder kept out of version control.
pub open spec fn gtr_dir_bytes() -> Seq<u8> {
    seq![46u8, 103u8, 116u8, 114u8]
}

/// Every nonempty line of a listing splits at a tab into at least two
/// fields: the hash, the ref name, and nothing the parser reads after.
pub open spec fn well_formed_ls_output(output: Seq<u8>) -> bool {
    forall|i: int|
        0 <= i < split_on(output, LINE_FEED).len() ==> (#[trigger] split_on(
            output,
            LINE_FEED,
        )[i]).len() == 0 || split_on(split_on(output, LINE_FEED)[i], TAB).len() >= 2
}

/// The mapping a sequence of listing lines denotes: each nonempty line
/// maps its second tab-separated field (the ref name) to its first (the
/// hash); a later line with the same name wins.
pub open spec fn refs_map_of_lines(lines: Seq<Seq<u8>>) -> Map<Seq<u8>, Seq<u8>>
    decreases lines.len(),
{
    if lines.len() == 0 {
        Map::empty()
    } else {
        let m = refs_map_of_lines(lines.drop_last());
        let line = lines.last();
        if line.len() == 0 {
            m
        } else {
            m.insert(split_on(line, TAB)[1], split_on(line, TAB)[0])
        }
    }
}

/// The ref-to-hash mapping of a whole listing.
pub open spec fn ls_remote_refs(output: Seq<u8>) -> Map<Seq<u8>, Seq<u8>> {
    refs_map_of_lines(split_on(output, LINE_FEED))
}

/// No two entries name the same ref.
pub open spec fn refs_names_unique(refs: Seq<Ref>) -> bool {
    forall|i: int, j: int| 0 <= i < j < refs.len() ==> refs[i].name@ != refs[j].name@
}

/// Parses a reference listing: tab-separated `hash<TAB>ref-name` lines,
/// separated by newlines, into the entries of the mapping they denote.
/// Keys are unique; on a repeated name the later line wins, and order
/// carries no meaning.
pub fn parse_ls_remote(output: &[u8]) -> (refs: Vec<Ref>)
    requires
        well_formed_ls_output(output@),
    ensures
        refs_names_unique(refs@),
        forall|i: int|
            0 <= i < refs@.len() ==> ls_remote_refs(output@).contains_pair(
                (#[trigger] refs@[i]).name@,
                refs@[i].hash@,
            ),
        forall|k: Seq<u8>|
            ls_remote_refs(output@).contains_key(k) ==> exists|i: int|
                0 <= i < refs@.len() && (#[trigger] refs@[i]).name@ == k,
{
    let lines = split_bytes(output, LINE_FEED);
    let ghost line_views = split_on(output@, LINE_FEED);
    let mut refs: Vec<Ref> = Vec::new();
    let mut i: usize = 0;
    while i < lines.len()
        invariant
            i <= lines@.len(),
            views_of(lines@) == line_views,
            well_formed_ls_output(output@),
            line_views == split_on(output@, LINE_FEED),
            refs_names_unique(refs@),
            forall|r: int|
                0 <= r < refs@.len() ==> refs_map_of_lines(line_views.take(i as int)).contains_pair(
                    (#[trigger] refs@[r]).name@,
                    refs@[r].hash@,
                ),
            forall|k: Seq<u8>|
                refs_map_of_lines(line_views.take(i as int)).contains_key(k) ==> exists|r: int|
                    0 <= r < refs@.len() && (#[trigger] refs@[r]).name@ == k,
        decreases lines@.len() - i,
    {
        let ghost prev_map = refs_map_of_lines(line_views.take(i as int));
        proof {
            assert(line_views.take(i + 1).drop_last() =~= line_views.take(i as int));
            assert(line_views.take(i + 1).last() == line_views[i as int]);
        }
        let line = &lines[i];
        if line.len() > 0 {
            let fields = split_bytes(line.as_slice(), TAB);
            proof {
                assert(views_of(fields@) == split_on(line_views[i as int], TAB));
                assert(views_of(fields@).len() == fields@.len());
            }
            let hash = copy_bytes(fields[0].as_slice());
            let name = copy_bytes(fields[1].as_slice());
            let ghost name_view = name@;
            let ghost hash_view = hash@;
            let ghost new_map = prev_map.insert(name_view, hash_view);
            let ghost old_refs = refs@;
            let mut j: usize = 0;
            let mut found = false;
            while j < refs.len() && !found
                invariant
                    j <= refs@.len(),
                    refs@ == old_refs,
                    name@ == name_view,
                    found ==> j < refs@.len() && refs@[j as int].name@ == name_view,
                    !found ==> forall|r: int|
                        0 <= r < j ==> (#[trigger] refs@[r]).name@ != name_view,
                decreases refs@.len() - j, (if found {
                    0int
                } else {
                    1int
                }),
            {
                if crate::util::bytes_eq(refs[j].name.as_slice(), name.as_slice()) {
                    found = true;
                } else {
                    j += 1;
                }
            }
            if found {
                vstd::pervasive::VecAdditionalExecFns::set(&mut refs, j, Ref { name, hash });
                proof {
                    assert(refs@ =~= old_refs.update(j as int, refs@[j as int]));
                    assert(refs@[j as int].name@ == name_view);
                    assert(refs@[j as int].hash@ == hash_view);
                    assert forall|r1: int, r2: int| 0 <= r1 < r2 < refs@.len() implies refs@[r1].name@
                        != refs@[r2].name@ by {
                        assert(old_refs[r1].name@ != old_refs[r2].name@);
                        assert(refs@[r1].name@ == if r1 == j {
                            name_view
                        } else {
                            old_refs[r1].name@
                        });
                        assert(refs@[r2].name@ == if r2 == j {
                            name_view
                        } else {
                            old_refs[r2].name@
                        });
                        assert(old_refs[j as int].name@ == name_view);
                    }
                    assert forall|r: int| 0 <= r < refs@.len() implies new_map.contains_pair(
                        (#[trigger] refs@[r]).name@,
                        refs@[r].hash@,
                    ) by {
                        if r != j {
                            assert(refs@[r] == old_refs[r]);
                            assert(prev_map.contains_pair(old_refs[r].name@, old_refs[r].hash@));
                            assert(old_refs[r].name@ != old_refs[j as int].name@);
                            assert(old_refs[r].name@ != name_view);
                        }
                    }
                    assert forall|k: Seq<u8>| new_map.contains_key(k) implies exists|r: int|
                        0 <= r < refs@.len() && (#[trigger] refs@[r]).name@ == k by {
                        if k == name_view {
                            assert(refs@[j as int].name@ == k);
                        } else {
                            assert(prev_map.contains_key(k));
                            let r = choose|r: int|
                                0 <= r < old_refs.len() && (#[trigger] old_refs[r]).name@ == k;
                            assert(refs@[r].name@ == k);
                        }
                    }
                }
            } else {
                refs.push(Ref { name, hash });
                proof {
                    let last = old_refs.len() as int;
                    assert(refs@ =~= old_refs.push(refs@[last]));
                    assert(refs@[last].name@ == name_view);
                    assert(refs@[last].hash@ == hash_view);
                    assert forall|r1: int, r2: int| 0 <= r1 < r2 < refs@.len() implies refs@[r1].name@
                        != refs@[r2].name@ by {
                        if r2 < last {
                            assert(old_refs[r1].name@ != old_refs[r2].name@);
                        } else {
                            assert(old_refs[r1].name@ != name_view);
                        }
                    }
                    assert forall|r: int| 0 <= r < refs@.len() implies new_map.contains_pair(
                        (#[trigger] refs@[r]).name@,
                        refs@[r].hash@,
                    ) by {
                        if r < last {
                            assert(refs@[r] == old_refs[r]);
                            assert(prev_map.contains_pair(old_refs[r].name@, old_refs[r].hash@));
                            assert(old_refs[r].name@ != name_view);
                        }
                    }
                    assert forall|k: Seq<u8>| new_map.contains_key(k) implies exists|r: int|
                        0 <= r < refs@.len() && (#[trigger] refs@[r]).name@ == k by {
                        if k == name_view {
                            assert(refs@[last].name@ == k);
                        } else {
                            assert(prev_map.contains_key(k));
                            let r = choose|r: int|
                                0 <= r < old_refs.len() && (#[trigger] old_refs[r]).name@ == k;
                            assert(refs@[r].name@ == k);
                        }
                    }
                }
            }
        }
        i += 1;
        proof {
            assert(views_of(lines@).take(i as int) == line_views.take(i as int));
        }
    }
    proof {
        assert(line_views.take(line_views.len() as int) =~= line_views);
    }
    refs
}

/// The names of the parsed references, in listing order.
pub fn ref_names(refs: &Vec<Ref>) -> (names: Vec<Vec<u8>>)
    ensures
        views_of(names@) == refs@.map_values(|r: Ref| r.name@),
{
    let mut names: Vec<Vec<u8>> = Vec::new();
    let mut i: usize = 0;
    while i < refs.len()
        invariant
            i <= refs@.len(),
            views_of(names@) == refs@.take(i as int).map_values(|r: Ref| r.name@),
        decreases refs@.len() - i,
    {
        let ghost old_views = views_of(names@);
        names.push(copy_bytes(refs[i].name.as_slice()));
        proof {
            assert(views_of(names@) =~= old_views.push(refs@[i as int].name@));
            assert(views_of(names@) =~= refs@.take(i + 1).map_values(|r: Ref| r.name@));
        }
        i += 1;
    }
    proof {
        assert(refs@.take(refs@.len() as int) =~= refs@);
    }
    names
}

/// A branch name carried to its fully-qualified ref name.
pub open spec fn prefixed(branch: Seq<u8>) -> Seq<u8> {
    refs_heads_prefix() + branch
}

/// The fully-qualified names of a list of branches, as a set.
pub open spec fn prefixed_set(branches: Seq<Seq<u8>>) -> Set<Seq<u8>> {
    branches.map_values(|b: Seq<u8>| prefixed(b)).to_set()
}

/// The refs selected for negotiation: the advertised names intersected
/// with the requested branches under `refs/heads/`.
pub open spec fn selected_refs(available: Set<Seq<u8>>, requested: Seq<Seq<u8>>) -> Set<Seq<u8>> {
    available.intersect(prefixed_set(requested))
}

/// Selects the requested branches that the repository advertises: each
/// branch name is carried to `refs/heads/<name>`, and the result holds,
/// without duplicates, exactly those qualified names among the available
/// ones. Order and duplicates of the inputs carry no meaning
/// (`lemma_selection_depends_on_sets`).
pub fn select_exsiting_branches(available: &Vec<Vec<u8>>, branches: &Vec<Vec<u8>>) -> (r: Vec<
    Vec<u8>,
>)
    ensures
        views_of(r@).no_duplicates(),
        views_of(r@).to_set() == selected_refs(
            views_of(available@).to_set(),
            views_of(branches@),
        ),
{
    let mut out: Vec<Vec<u8>> = Vec::new();
    let mut i: usize = 0;
    proof {
        assert(views_of(out@).to_set() =~= selected_refs(
            views_of(available@).to_set(),
            views_of(branches@).take(0),
        ));
    }
    while i < branches.len()
        invariant
            i <= branches@.len(),
            views_of(out@).no_duplicates(),
            views_of(out@).to_set() == selected_refs(
                views_of(available@).to_set(),
                views_of(branches@).take(i as int),
            ),
        decreases branches@.len() - i,
    {
        let mut full: Vec<u8> = Vec::new();
        full.push(114);
        full.push(101);
        full.push(102);
        full.push(115);
        full.push(47);
        full.push(104);
        full.push(101);
        full.push(97);
        full.push(100);
        full.push(115);
        full.push(47);
        append_bytes(&mut full, branches[i].as_slice());
        proof {
            assert(full@ =~= prefixed(views_of(branches@)[i as int]));
        }
        let ghost taken = views_of(branches@).take(i as int);
        let ghost taken_next = views_of(branches@).take(i + 1);
        proof {
            assert(taken_next =~= taken.push(views_of(branches@)[i as int]));
            assert(taken_next.map_values(|b: Seq<u8>| prefixed(b)) =~= taken.map_values(
                |b: Seq<u8>| prefixed(b),
            ).push(full@));
            lemma_push_to_set(taken.map_values(|b: Seq<u8>| prefixed(b)), full@);
        }
        if contains_bytes(available, full.as_slice()) && !contains_bytes(&out, full.as_slice()) {
            let ghost old_views = views_of(out@);
            out.push(full);
            proof {
                assert(views_of(out@) =~= old_views.push(prefixed(views_of(branches@)[i as int])));
                lemma_push_to_set(old_views, prefixed(views_of(branches@)[i as int]));
                assert(views_of(out@).to_set() =~= selected_refs(
                    views_of(available@).to_set(),
                    taken_next,
                ));
            }
        } else {
            proof {
                assert(views_of(out@).to_set() =~= selected_refs(
                    views_of(available@).to_set(),
                    taken_next,
                ));
            }
        }
        i += 1;
    }
    proof {
        assert(views_of(branches@).take(views_of(branches@).len() as int) =~= views_of(branches@));
    }
    out
}

/// Idempotent ref intersection: the set of refs selected for negotiation
/// depends only on the set of available names and the set of requested
/// branch names, never on input ordering or duplicate entries.
pub proof fn lemma_selection_depends_on_sets(
    avail1: Seq<Seq<u8>>,
    req1: Seq<Seq<u8>>,
    avail2: Seq<Seq<u8>>,
    req2: Seq<Seq<u8>>,
)
    requires
        avail1.to_set() == avail2.to_set(),
        req1.to_set() == req2.to_set(),
    ensures
        selected_refs(avail1.to_set(), req1) == selected_refs(avail2.to_set(), req2),
{
    lemma_prefixed_set_from_set(req1, req2);
    assert(selected_refs(avail1.to_set(), req1) =~= selected_refs(avail2.to_set(), req2));
}

/// Qualifying branch names with `refs/heads/` looks only at the set of
/// names.
proof fn lemma_prefixed_set_from_set(req1: Seq<Seq<u8>>, req2: Seq<Seq<u8>>)
    requires
        req1.to_set() == req2.to_set(),
    ensures
        prefixed_set(req1) == prefixed_set(req2),
{
    lemma_prefixed_set_subset(req1, req2);
    lemma_prefixed_set_subset(req2, req1);
    assert(prefixed_set(req1) =~= prefixed_set(req2));
}

proof fn lemma_prefixed_set_subset(req1: Seq<Seq<u8>>, req2: Seq<Seq<u8>>)
    requires
        req1.to_set() == req2.to_set(),
    ensures
        forall|y: Seq<u8>| prefixed_set(req1).contains(y) ==> prefixed_set(req2).contains(y),
{
    assert forall|y: Seq<u8>| prefixed_set(req1).contains(y) implies prefixed_set(req2).contains(
        y,
    ) by {
        let m1 = req1.map_values(|b: Seq<u8>| prefixed(b));
        let k = choose|k: int| 0 <= k < m1.len() && m1[k] == y;
        assert(req1.to_set().contains(req1[k]));
        assert(req2.to_set().contains(req1[k]));
        let j = choose|j: int| 0 <= j < req2.len() && req2[j] == req1[k];
        assert(req2.map_values(|b: Seq<u8>| prefixed(b))[j] == y);
    }
}

/// Whether the ignore file already lists the settings folder on a line of
/// its own.
pub fn gtr_ignored(content: &[u8]) -> (r: bool)
    ensures
        r == split_on(content@, LINE_FEED).contains(gtr_dir_bytes()),
{
    let lines = split_bytes(content, LINE_FEED);
    let mut probe: Vec<u8> = Vec::new();
    probe.push(46);
    probe.push(103);
    probe.push(116);
    probe.push(114);
    proof {
        assert(probe@ =~= gtr_dir_bytes());
    }
    contains_bytes(&lines, probe.as_slice())
}

/// The ignore-file content with the settings folder appended on a line of
/// its own, as the setup step persists it.
pub fn gitignore_with_gtr(content: &[u8]) -> (r: Vec<u8>)
    ensures
        r@ == content@ + seq![LINE_FEED] + gtr_dir_bytes(),
{
    let mut out = copy_bytes(content);
    out.push(LINE_FEED);
    out.push(46);
    out.push(103);
    out.push(116);
    out.push(114);
    proof {
        assert(out@ =~= content@ + seq![LINE_FEED] + gtr_dir_bytes());
    }
    out
}

/// The file one negotiation's pack stream is persisted to:
/// `<want-hash>.pack`.
pub fn pack_file_name(want: &str) -> (r: String)
    ensures
        r@ == want@ + ".pack"@,
{
    let name = want.to_owned();
    name.concat(".pack")
}

} // verus!
