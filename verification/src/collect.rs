//! The collector: turns the entries observed by a directory walk into the
//! repository records under a root. An entry qualifies when it is a
//! directory within the depth bound that holds a `.git` metadata entry; a
//! qualifying entry yields a record exactly when the repository has a
//! remote under the requested name. Traversal order is preserved.

use vstd::prelude::*;

use crate::pack::{packs_view, Pack, PackView};

verus! {

/// What one walked filesystem entry looked like to the walker and the
/// repository detector: its path, its depth below the walk's root (the
/// root itself is depth 0), whether it is a directory, whether it holds a
/// `.git` metadata entry (directory or file), and — for a repository —
/// the URL of its remote named `origin`, if it has one.
pub struct WalkEntry {
    pub path: String,
    pub depth: usize,
    pub is_dir: bool,
    pub has_git_entry: bool,
    pub origin_url: Option<String>,
}

/// Mathematical view of one walked entry.
pub struct WalkEntryView {
    pub path: Seq<char>,
    pub depth: nat,
    pub is_dir: bool,
    pub has_git_entry: bool,
    pub origin_url: Option<Seq<char>>,
}

impl View for WalkEntry {
    type V = WalkEntryView;

    open spec fn view(&self) -> WalkEntryView {
        WalkEntryView {
            path: self.path@,
            depth: self.depth as nat,
            is_dir: self.is_dir,
            has_git_entry: self.has_git_entry,
            origin_url: match self.origin_url {
                None => None,
                Some(u) => Some(u@),
            },
        }
    }
}

/// The views of a sequence of walked entries, in order.
pub open spec fn entries_view(s: Seq<WalkEntry>) -> Seq<WalkEntryView> {
    s.map_values(|e: WalkEntry| e@)
}

/// The views of a sequence of strings, in order.
pub open spec fn strings_view(s: Seq<String>) -> Seq<Seq<char>> {
    s.map_values(|x: String| x@)
}

/// The default remote name a discovered repository is expected to track.
pub open spec fn origin_name() -> Seq<char> {
    seq!['o', 'r', 'i', 'g', 'i', 'n']
}

/// An entry qualifies as a repository candidate: a directory, within the
/// depth bound, holding a `.git` metadata entry.
pub open spec fn entry_qualifies(e: WalkEntryView, max_depth: nat) -> bool {
    e.depth <= max_depth && e.is_dir && e.has_git_entry
}

/// The record a qualifying entry yields: its path and observed remote
/// URL under the given remote name — or no record, when the repository
/// lacks that remote.
pub open spec fn detect_pack(e: WalkEntryView, remote_name: Seq<char>) -> Option<PackView> {
    match e.origin_url {
        None => None,
        Some(u) => Some(PackView { path: e.path, url: u, remote_name }),
    }
}

/// The paths of the qualifying entries, in traversal order.
pub open spec fn spec_git_paths(es: Seq<WalkEntryView>, max_depth: nat) -> Seq<Seq<char>>
    decreases es.len(),
{
    if es.len() == 0 {
        Seq::empty()
    } else {
        (if entry_qualifies(es[0], max_depth) {
            seq![es[0].path]
        } else {
            Seq::empty()
        }) + spec_git_paths(es.skip(1), max_depth)
    }
}

/// The records of the qualifying entries that have an `origin` remote,
/// in traversal order.
pub open spec fn spec_collect(es: Seq<WalkEntryView>, max_depth: nat) -> Seq<PackView>
    decreases es.len(),
{
    if es.len() == 0 {
        Seq::empty()
    } else {
        (if entry_qualifies(es[0], max_depth) {
            match detect_pack(es[0], origin_name()) {
                None => Seq::empty(),
                Some(p) => seq![p],
            }
        } else {
            Seq::empty()
        }) + spec_collect(es.skip(1), max_depth)
    }
}

/// One more entry at the end of the walk appends its contribution — its
/// path when it qualifies, nothing otherwise.
proof fn lemma_git_paths_push(es: Seq<WalkEntryView>, e: WalkEntryView, d: nat)
    ensures
        spec_git_paths(es.push(e), d) == spec_git_paths(es, d) + (if entry_qualifies(e, d) {
            seq![e.path]
        } else {
            Seq::<Seq<char>>::empty()
        }),
    decreases es.len(),
{
    let tail = (if entry_qualifies(e, d) {
        seq![e.path]
    } else {
        Seq::<Seq<char>>::empty()
    });
    if es.len() == 0 {
        assert(es.push(e).skip(1) =~= Seq::<WalkEntryView>::empty());
        assert(es.push(e)[0] == e);
        assert(spec_git_paths(Seq::<WalkEntryView>::empty(), d) == Seq::<Seq<char>>::empty());
        assert(spec_git_paths(es, d) == Seq::<Seq<char>>::empty());
        assert(tail + Seq::<Seq<char>>::empty() =~= tail);
        assert(spec_git_paths(es, d) + tail =~= tail);
    } else {
        assert(es.push(e).skip(1) =~= es.skip(1).push(e));
        lemma_git_paths_push(es.skip(1), e, d);
        let head = (if entry_qualifies(es[0], d) {
            seq![es[0].path]
        } else {
            Seq::<Seq<char>>::empty()
        });
        assert(head + (spec_git_paths(es.skip(1), d) + tail) =~= (head + spec_git_paths(
            es.skip(1),
            d,
        )) + tail);
    }
}

/// One more entry at the end of the walk appends its contribution — its
/// record when it qualifies and has the remote, nothing otherwise.
proof fn lemma_collect_push(es: Seq<WalkEntryView>, e: WalkEntryView, d: nat)
    ensures
        spec_collect(es.push(e), d) == spec_collect(es, d) + (if entry_qualifies(e, d) {
            match detect_pack(e, origin_name()) {
                None => Seq::<PackView>::empty(),
                Some(p) => seq![p],
            }
        } else {
            Seq::<PackView>::empty()
        }),
    decreases es.len(),
{
    let tail = (if entry_qualifies(e, d) {
        match detect_pack(e, origin_name()) {
            None => Seq::<PackView>::empty(),
            Some(p) => seq![p],
        }
    } else {
        Seq::<PackView>::empty()
    });
    if es.len() == 0 {
        assert(es.push(e).skip(1) =~= Seq::<WalkEntryView>::empty());
        assert(es.push(e)[0] == e);
        assert(spec_collect(Seq::<WalkEntryView>::empty(), d) == Seq::<PackView>::empty());
        assert(spec_collect(es, d) == Seq::<PackView>::empty());
        assert(tail + Seq::<PackView>::empty() =~= tail);
        assert(spec_collect(es, d) + tail =~= tail);
    } else {
        assert(es.push(e).skip(1) =~= es.skip(1).push(e));
        lemma_collect_push(es.skip(1), e, d);
        let head = (if entry_qualifies(es[0], d) {
            match detect_pack(es[0], origin_name()) {
                None => Seq::<PackView>::empty(),
                Some(p) => seq![p],
            }
        } else {
            Seq::<PackView>::empty()
        });
        assert(head + (spec_collect(es.skip(1), d) + tail) =~= (head + spec_collect(es.skip(1), d))
            + tail);
    }
}

/// A record is collected exactly when some walked entry qualifies —
/// directory, depth within the bound, `.git` present — and detection on
/// it yields that record. In particular, with bound `k` exactly the
/// repositories at depth at most `k` are returned.
pub proof fn lemma_collect_characterization(es: Seq<WalkEntryView>, max_depth: nat, p: PackView)
    ensures
        spec_collect(es, max_depth).contains(p) <==> exists|i: int|
            0 <= i < es.len() && entry_qualifies(es[i], max_depth) && detect_pack(
                es[i],
                origin_name(),
            ) == Some(p),
    decreases es.len(),
{
    if es.len() == 0 {
    } else {
        let head = (if entry_qualifies(es[0], max_depth) {
            match detect_pack(es[0], origin_name()) {
                None => Seq::<PackView>::empty(),
                Some(q) => seq![q],
            }
        } else {
            Seq::<PackView>::empty()
        });
        let rest = spec_collect(es.skip(1), max_depth);
        lemma_collect_characterization(es.skip(1), max_depth, p);
        assert(spec_collect(es, max_depth) == head + rest);
        if spec_collect(es, max_depth).contains(p) {
            let w = choose|w: int| 0 <= w < (head + rest).len() && (head + rest)[w] == p;
            if w < head.len() {
                assert(entry_qualifies(es[0], max_depth) && detect_pack(es[0], origin_name())
                    == Some(p));
            } else {
                assert(rest[w - head.len()] == p);
                assert(rest.contains(p));
                let i = choose|i: int|
                    0 <= i < es.skip(1).len() && entry_qualifies(es.skip(1)[i], max_depth)
                        && detect_pack(es.skip(1)[i], origin_name()) == Some(p);
                assert(es.skip(1)[i] == es[i + 1]);
                assert(0 <= i + 1 < es.len() && entry_qualifies(es[i + 1], max_depth)
                    && detect_pack(es[i + 1], origin_name()) == Some(p));
            }
        }
        if exists|i: int|
            0 <= i < es.len() && entry_qualifies(es[i], max_depth) && detect_pack(
                es[i],
                origin_name(),
            ) == Some(p) {
            let i = choose|i: int|
                0 <= i < es.len() && entry_qualifies(es[i], max_depth) && detect_pack(
                    es[i],
                    origin_name(),
                ) == Some(p);
            if i == 0 {
                assert(head[0] == p);
                assert((head + rest)[0] == p);
            } else {
                assert(es.skip(1)[i - 1] == es[i]);
                assert(rest.contains(p));
                let w = choose|w: int| 0 <= w < rest.len() && rest[w] == p;
                assert((head + rest)[head.len() + w] == p);
            }
            assert(spec_collect(es, max_depth).contains(p));
        }
    }
}

/// Detector purity: a path at which the walk never saw a `.git` entry
/// never appears in the collected records, whatever else stands there.
pub proof fn lemma_detector_purity(es: Seq<WalkEntryView>, max_depth: nat, p: PackView)
    requires
        forall|i: int| 0 <= i < es.len() && es[i].path == p.path ==> !es[i].has_git_entry,
    ensures
        !spec_collect(es, max_depth).contains(p),
{
    lemma_collect_characterization(es, max_depth, p);
    if spec_collect(es, max_depth).contains(p) {
        let i = choose|i: int|
            0 <= i < es.len() && entry_qualifies(es[i], max_depth) && detect_pack(
                es[i],
                origin_name(),
            ) == Some(p);
        assert(p.path == es[i].path);
        assert(!es[i].has_git_entry);
        assert(false);
    }
}

/// Walk subtrees contribute independently: the records of two entry runs
/// back to back are the two runs' records back to back. Entries lost to
/// an unreadable subtree therefore never disturb the records collected
/// from the rest of the walk.
pub proof fn lemma_collect_append(a: Seq<WalkEntryView>, b: Seq<WalkEntryView>, d: nat)
    ensures
        spec_collect(a + b, d) == spec_collect(a, d) + spec_collect(b, d),
    decreases a.len(),
{
    if a.len() == 0 {
        assert(a + b =~= b);
        assert(spec_collect(a, d) + spec_collect(b, d) =~= spec_collect(b, d));
    } else {
        assert((a + b)[0] == a[0]);
        assert((a + b).len() != 0);
        assert((a + b).skip(1) =~= a.skip(1) + b);
        lemma_collect_append(a.skip(1), b, d);
        let head = (if entry_qualifies(a[0], d) {
            match detect_pack(a[0], origin_name()) {
                None => Seq::<PackView>::empty(),
                Some(q) => seq![q],
            }
        } else {
            Seq::<PackView>::empty()
        });
        assert(head + (spec_collect(a.skip(1), d) + spec_collect(b, d)) =~= (head + spec_collect(
            a.skip(1),
            d,
        )) + spec_collect(b, d));
    }
}

/// The paths of the walked entries that qualify as repository
/// candidates, in traversal order.
pub fn collect_git_paths(entries: &Vec<WalkEntry>, max_depth: usize) -> (paths: Vec<String>)
    ensures
        strings_view(paths@) == spec_git_paths(entries_view(entries@), max_depth as nat),
{
    let mut paths: Vec<String> = Vec::new();
    let mut i: usize = 0;
    proof {
        assert(strings_view(paths@) =~= Seq::<Seq<char>>::empty());
        assert(entries_view(entries@).take(0) =~= Seq::<WalkEntryView>::empty());
    }
    while i < entries.len()
        invariant
            i <= entries.len(),
            strings_view(paths@) == spec_git_paths(
                entries_view(entries@).take(i as int),
                max_depth as nat,
            ),
        decreases entries.len() - i,
    {
        let ghost done = entries_view(entries@).take(i as int);
        let e = &entries[i];
        proof {
            lemma_git_paths_push(done, entries@[i as int]@, max_depth as nat);
            assert(done.push(entries@[i as int]@) =~= entries_view(entries@).take(i + 1));
        }
        if e.depth <= max_depth && e.is_dir && e.has_git_entry {
            paths.push(e.path.clone());
            proof {
                assert(strings_view(paths@) =~= spec_git_paths(done, max_depth as nat) + seq![
                    entries@[i as int]@.path,
                ]);
            }
        } else {
            proof {
                assert(spec_git_paths(done, max_depth as nat) + Seq::<Seq<char>>::empty()
                    =~= strings_view(paths@));
            }
        }
        i = i + 1;
    }
    proof {
        assert(entries_view(entries@).take(entries@.len() as int) =~= entries_view(entries@));
    }
    paths
}

/// The record for one repository candidate, given what the version
/// control lookup observed: the URL of its remote under `remote_name`,
/// or nothing when that remote is absent — in which case the candidate
/// is excluded, not failed.
pub fn get_package(path: String, remote_name: &str, remote_url: Option<String>) -> (r: Option<
    Pack,
>)
    ensures
        match remote_url {
            Some(u) => r is Some && r->0@ == (PackView {
                path: path@,
                url: u@,
                remote_name: remote_name@,
            }),
            None => r is None,
        },
{
    match remote_url {
        None => None,
        Some(u) => Some(Pack::new(path, u.as_str(), remote_name)),
    }
}

/// The record one walked entry contributes under the depth bound:
/// detection on a qualifying entry, nothing otherwise. Lets a caller
/// consume a lazy walk entry by entry, without materializing it first.
pub fn collect_entry(entry: &WalkEntry, max_depth: usize) -> (r: Option<Pack>)
    ensures
        r is Some <==> entry_qualifies(entry@, max_depth as nat) && detect_pack(
            entry@,
            origin_name(),
        ) is Some,
        r is Some ==> Some(r->0@) == detect_pack(entry@, origin_name()),
{
    proof {
        reveal_strlit("origin");
        assert("origin"@ =~= origin_name());
    }
    if entry.depth <= max_depth && entry.is_dir && entry.has_git_entry {
        let url = match &entry.origin_url {
            None => None,
            Some(u) => Some(u.clone()),
        };
        get_package(entry.path.clone(), "origin", url)
    } else {
        None
    }
}

/// All repository records under a walked root, in traversal order: one
/// record for each directory within the depth bound that holds a `.git`
/// entry and tracks a remote named `origin`.
pub fn collect_repos(entries: &Vec<WalkEntry>, max_depth: usize) -> (packs: Vec<Pack>)
    ensures
        packs_view(packs@) == spec_collect(entries_view(entries@), max_depth as nat),
{
    let mut packs: Vec<Pack> = Vec::new();
    let mut i: usize = 0;
    proof {
        assert(packs_view(packs@) =~= Seq::<PackView>::empty());
        assert(entries_view(entries@).take(0) =~= Seq::<WalkEntryView>::empty());
    }
    while i < entries.len()
        invariant
            i <= entries.len(),
            packs_view(packs@) == spec_collect(
                entries_view(entries@).take(i as int),
                max_depth as nat,
            ),
        decreases entries.len() - i,
    {
        let ghost done = entries_view(entries@).take(i as int);
        proof {
            lemma_collect_push(done, entries@[i as int]@, max_depth as nat);
            assert(done.push(entries@[i as int]@) =~= entries_view(entries@).take(i + 1));
        }
        match collect_entry(&entries[i], max_depth) {
            Some(p) => {
                packs.push(p);
                proof {
                    assert(packs_view(packs@) =~= spec_collect(done, max_depth as nat).push(
                        detect_pack(entries@[i as int]@, origin_name())->0,
                    ));
                    assert(spec_collect(done, max_depth as nat).push(
                        detect_pack(entries@[i as int]@, origin_name())->0,
                    ) =~= spec_collect(done, max_depth as nat) + seq![
                        detect_pack(entries@[i as int]@, origin_name())->0,
                    ]);
                }
            },
            None => {
                proof {
                    assert(spec_collect(done, max_depth as nat) + Seq::<PackView>::empty()
                        =~= packs_view(packs@));
                }
            },
        }
        i = i + 1;
    }
    proof {
        assert(entries_view(entries@).take(entries@.len() as int) =~= entries_view(entries@));
    }
    packs
}

} // verus!
