//! File navigation over a filesystem snapshot: the recursive suffix-filtered
//! search, the symbolic-link resolver, the `.d` file parser, and the
//! aggregator that composes the three.

use vstd::prelude::*;
use vstd::seq_lib::group_seq_properties;
use vstd::utf8::decode_utf8;
use vstd::utf8::valid_utf8;

use crate::DependencyListerError;
use crate::ErrorView;
use crate::dep_set::DepSet;
use crate::dep_set::insert_all;
use crate::dep_set::lemma_insert_all_concat;
use crate::fs_model::EntryKind;
use crate::fs_model::EntryKindView;
use crate::fs_model::EntryView;
use crate::fs_model::FileSystem;
use crate::fs_model::lemma_lookup_len;
use crate::fs_model::lookup;
use crate::fs_model::max_path_len;
use crate::fs_model::path_views;
use crate::paths::ends_with;
use crate::paths::ends_with_str;
use crate::paths::is_absolute;
use crate::paths::is_absolute_path;
use crate::paths::join;
use crate::paths::join_path;
use crate::paths::parent_dir;
use crate::paths::parent_of;

verus! {

/// Every path under the directory `dir` whose direct children are named
/// `names`, in traversal order: for each name in turn, first every path under
/// the child (when the child is itself a directory of the table), then the
/// child's own path. The walk does not follow symbolic links.
pub open spec fn walk_names(
    fs: Seq<EntryView>,
    dir: Seq<char>,
    names: Seq<Seq<char>>,
) -> Seq<Seq<char>>
    decreases max_path_len(fs) - dir.len(), names.len(),
    via walk_names_decreases
{
    if names.len() == 0 {
        Seq::empty()
    } else {
        let child = join(dir, names[0]);
        let sub = match lookup(fs, child) {
            Some(EntryKindView::Dir(child_names)) => walk_names(fs, child, child_names),
            _ => Seq::empty(),
        };
        sub + seq![child] + walk_names(fs, dir, names.drop_first())
    }
}

#[via_fn]
proof fn walk_names_decreases(fs: Seq<EntryView>, dir: Seq<char>, names: Seq<Seq<char>>) {
    if names.len() > 0 {
        lemma_lookup_len(fs, join(dir, names[0]));
    }
}

/// Every path under the directory `root`, in traversal order, or the error
/// when `root` is not a directory of the table.
pub open spec fn walk_dir(fs: Seq<EntryView>, root: Seq<char>) -> Result<Seq<Seq<char>>, ErrorView> {
    match lookup(fs, root) {
        Some(EntryKindView::Dir(names)) => Ok(walk_names(fs, root, names)),
        _ => Err(ErrorView::DirectoryReadingError(root)),
    }
}

/// A walk over concatenated name lists is the concatenation of the walks.
pub proof fn lemma_walk_names_concat(
    fs: Seq<EntryView>,
    dir: Seq<char>,
    a: Seq<Seq<char>>,
    b: Seq<Seq<char>>,
)
    ensures
        walk_names(fs, dir, a + b) == walk_names(fs, dir, a) + walk_names(fs, dir, b),
    decreases a.len(),
{
    if a.len() == 0 {
        assert(a + b =~= b);
        assert(walk_names(fs, dir, a) + walk_names(fs, dir, b) =~= walk_names(fs, dir, b));
    } else {
        assert((a + b)[0] == a[0]);
        assert((a + b).drop_first() =~= a.drop_first() + b);
        lemma_walk_names_concat(fs, dir, a.drop_first(), b);
        assert(walk_names(fs, dir, a + b) =~= walk_names(fs, dir, a) + walk_names(fs, dir, b));
    }
}

/// A walk over a single name: first what is under the child, then the child.
pub proof fn lemma_walk_names_singleton(fs: Seq<EntryView>, dir: Seq<char>, name: Seq<char>)
    ensures
        walk_names(fs, dir, seq![name]) == (match lookup(fs, join(dir, name)) {
            Some(EntryKindView::Dir(cn)) => walk_names(fs, join(dir, name), cn),
            _ => Seq::empty(),
        }) + seq![join(dir, name)],
{
    reveal_with_fuel(walk_names, 2);
    assert(seq![name].drop_first() =~= Seq::<Seq<char>>::empty());
    assert(seq![name][0] == name);
    assert(walk_names(fs, dir, seq![name]) =~= (match lookup(fs, join(dir, name)) {
        Some(EntryKindView::Dir(cn)) => walk_names(fs, join(dir, name), cn),
        _ => Seq::empty(),
    }) + seq![join(dir, name)]);
}

/// The suffix test as a predicate value, for filtering.
pub open spec fn suffix_pred(suffix: Seq<char>) -> spec_fn(Seq<char>) -> bool {
    |p: Seq<char>| ends_with(p, suffix)
}

/// The paths of `ps` that end with `suffix`, in order.
pub open spec fn filter_suffix(ps: Seq<Seq<char>>, suffix: Seq<char>) -> Seq<Seq<char>> {
    ps.filter(suffix_pred(suffix))
}

/// A filter over a single path keeps or drops it by the suffix test.
pub proof fn lemma_filter_suffix_singleton(x: Seq<char>, suffix: Seq<char>)
    ensures
        ends_with(x, suffix) ==> filter_suffix(seq![x], suffix) == seq![x],
        !ends_with(x, suffix) ==> filter_suffix(seq![x], suffix) == Seq::<Seq<char>>::empty(),
{
    reveal_with_fuel(Seq::<_>::filter, 2);
    assert(seq![x].drop_last() =~= Seq::<Seq<char>>::empty());
    assert(seq![x].last() == x);
    if ends_with(x, suffix) {
        assert(filter_suffix(seq![x], suffix) =~= seq![x]);
    } else {
        assert(filter_suffix(seq![x], suffix) =~= Seq::<Seq<char>>::empty());
    }
}

/// Collects into `out` every path under the directory `dir` with child names
/// `names`, in traversal order.
fn walk_into(fs: &FileSystem, dir: &String, names: &Vec<String>, out: &mut Vec<String>)
    ensures
        path_views(final(out)@) == path_views(old(out)@) + walk_names(
            fs@,
            dir@,
            path_views(names@),
        ),
    decreases max_path_len(fs@) - dir@.len(), names@.len(),
{
    let ghost nv = path_views(names@);
    let n = names.len();
    proof {
        assert(path_views(out@) + walk_names(fs@, dir@, nv.take(0)) =~= path_views(out@));
    }
    for i in 0..n
        invariant
            n == names.len(),
            nv == path_views(names@),
            path_views(out@) == path_views(old(out)@) + walk_names(fs@, dir@, nv.take(i as int)),
    {
        let ghost mid = path_views(out@);
        let child: String = join_path(dir.as_str(), names[i].as_str());
        proof {
            assert(nv[i as int] == names@[i as int]@);
            assert(child@ == join(dir@, nv[i as int]));
        }
        match fs.query(&child) {
            Some(EntryKind::Dir(child_names)) => {
                proof {
                    lemma_lookup_len(fs@, child@);
                }
                walk_into(fs, &child, child_names, out);
            },
            _ => {},
        }
        let ghost before_push = path_views(out@);
        out.push(child);
        proof {
            assert(path_views(out@) =~= before_push.push(join(dir@, nv[i as int])));
            assert(nv.take(i + 1) =~= nv.take(i as int) + seq![nv[i as int]]);
            lemma_walk_names_concat(fs@, dir@, nv.take(i as int), seq![nv[i as int]]);
            lemma_walk_names_singleton(fs@, dir@, nv[i as int]);
            assert(path_views(out@) =~= path_views(old(out)@) + walk_names(
                fs@,
                dir@,
                nv.take(i + 1),
            ));
        }
    }
    proof {
        assert(nv.take(n as int) =~= nv);
    }
}

/// Lists every path under the directory `from`, recursively, and returns the
/// set of those whose textual path ends with `filename_suffix`. A directory
/// whose path ends with the suffix is collected like a file. Fails when
/// `from` is not a directory of the table.
pub fn find_files(fs: &FileSystem, from: &str, filename_suffix: &str) -> (r: Result<
    DepSet,
    DependencyListerError,
>)
    ensures
        match walk_dir(fs@, from@) {
            Ok(all) => r matches Ok(s) && s@ == insert_all(
                Seq::empty(),
                filter_suffix(all, filename_suffix@),
            ) && s.wf(),
            Err(e) => r matches Err(a) && a@ == e,
        },
{
    let root: String = from.to_owned();
    match fs.query(&root) {
        Some(EntryKind::Dir(names)) => {
            let mut all: Vec<String> = Vec::new();
            walk_into(fs, &root, names, &mut all);
            let ghost allv = path_views(all@);
            proof {
                assert(Seq::<String>::empty().map_values(|s: String| s@)
                    =~= Seq::<Seq<char>>::empty());
                assert(allv == walk_names(fs@, from@, path_views(names@)));
            }
            let mut ret = DepSet::new();
            let n = all.len();
            proof {
                broadcast use group_seq_properties;

                assert(allv.take(0).filter(suffix_pred(filename_suffix@))
                    =~= Seq::<Seq<char>>::empty()) by {
                    reveal(Seq::filter);
                }
            }
            for i in 0..n
                invariant
                    n == all.len(),
                    allv == path_views(all@),
                    ret@ == insert_all(
                        Seq::empty(),
                        filter_suffix(allv.take(i as int), filename_suffix@),
                    ),
                    ret.wf(),
            {
                proof {
                    assert(allv[i as int] == all@[i as int]@);
                }
                let ghost pre = filter_suffix(allv.take(i as int), filename_suffix@);
                if ends_with_str(all[i].as_str(), filename_suffix) {
                    ret.insert(all[i].clone());
                }
                proof {
                    assert(allv.take(i + 1) =~= allv.take(i as int) + seq![allv[i as int]]);
                    Seq::filter_distributes_over_add(
                        allv.take(i as int),
                        seq![allv[i as int]],
                        suffix_pred(filename_suffix@),
                    );
                    lemma_filter_suffix_singleton(allv[i as int], filename_suffix@);
                    if ends_with(allv[i as int], filename_suffix@) {
                        lemma_insert_all_concat(Seq::empty(), pre, seq![allv[i as int]]);
                        crate::dep_set::lemma_insert_all_singleton(
                            insert_all(Seq::empty(), pre),
                            allv[i as int],
                        );
                    } else {
                        assert(filter_suffix(allv.take(i + 1), filename_suffix@) =~= pre);
                    }
                }
            }
            proof {
                assert(allv.take(n as int) =~= allv);
            }
            Ok(ret)
        },
        _ => Err(DependencyListerError::DirectoryReadingError(root)),
    }
}

/// One step of link resolution: the candidate path that a link at `cur`
/// whose target reads `target` points to. An absolute target stands by
/// itself; a relative one is joined to the textual parent of `cur`.
pub open spec fn step_target(cur: Seq<char>, target: Seq<char>) -> Seq<char> {
    if is_absolute(target) {
        target
    } else {
        join(parent_of(cur), target)
    }
}

/// Link resolution from the candidate `cur`, with `fuel` follows left.
/// `orig` is the path the resolution started from, reported when a cycle is
/// found. Every existing path of a cycle-free chain is a distinct link entry
/// of the table, so a chain that is still on a link after as many follows as
/// the table has entries must have revisited one: with that much fuel,
/// running out means a cycle.
pub open spec fn resolve_rec(
    fs: Seq<EntryView>,
    orig: Seq<char>,
    cur: Seq<char>,
    fuel: nat,
) -> Result<Seq<char>, ErrorView>
    decreases fuel,
{
    match lookup(fs, cur) {
        None => Err(ErrorView::NotALink(cur)),
        Some(EntryKindView::Symlink(target)) => if fuel == 0 {
            Err(ErrorView::LinkCycleError(orig))
        } else {
            resolve_rec(fs, orig, step_target(cur, target), (fuel - 1) as nat)
        },
        Some(_) => Ok(cur),
    }
}

/// What following the chain of symbolic links from `p` reaches: `p` itself
/// when it is not a link, else the first non-link path of the chain; an
/// error when a path of the chain does not exist or the chain is cyclic.
pub open spec fn resolve_spec(fs: Seq<EntryView>, p: Seq<char>) -> Result<Seq<char>, ErrorView> {
    resolve_rec(fs, p, p, fs.len())
}

/// From a path to a file, if the file is a symbolic link, follow the chain
/// of links and return its final target; if it is not, return the path
/// itself. Fails when a path of the chain does not exist (`NotALink`) or
/// when the chain revisits a link and can never end (`LinkCycleError`).
pub fn follow_links_if_needed(fs: &FileSystem, path: &str) -> (r: Result<
    String,
    DependencyListerError,
>)
    ensures
        match resolve_spec(fs@, path@) {
            Ok(p) => r matches Ok(s) && s@ == p,
            Err(e) => r matches Err(a) && a@ == e,
        },
{
    let orig: String = path.to_owned();
    let mut cur: String = path.to_owned();
    let mut fuel: usize = fs.entries.len();
    proof {
        assert(fs@.len() == fs.entries@.len());
    }
    loop
        invariant
            orig@ == path@,
            resolve_rec(fs@, path@, cur@, fuel as nat) == resolve_spec(fs@, path@),
        decreases fuel,
    {
        match fs.query(&cur) {
            None => {
                return Err(DependencyListerError::NotALink(cur));
            },
            Some(EntryKind::Symlink(target)) => {
                if fuel == 0 {
                    return Err(DependencyListerError::LinkCycleError(orig));
                }
                let next = if is_absolute_path(target) {
                    target.clone()
                } else {
                    let dir = parent_dir(&cur);
                    join_path(dir.as_str(), target.as_str())
                };
                proof {
                    assert(next@ == step_target(cur@, target@));
                }
                cur = next;
                fuel = fuel - 1;
            },
            Some(_) => {
                return Ok(cur);
            },
        }
    }
}

/// The index of the first newline byte of `s` at or after `i`, or the
/// length of `s` when there is none.
pub open spec fn find_nl(s: Seq<u8>, i: int) -> int
    decreases s.len() - i,
{
    if i < 0 || i >= s.len() {
        s.len() as int
    } else if s[i] == 10u8 {
        i
    } else {
        find_nl(s, i + 1)
    }
}

/// `find_nl` returns the position it is characterized by: the first `k` at
/// or after `i` that is a newline or the end.
pub proof fn lemma_find_nl_is(s: Seq<u8>, i: int, k: int)
    requires
        0 <= i <= k <= s.len(),
        forall|m: int| i <= m < k ==> s[m] != 10u8,
        k == s.len() || s[k] == 10u8,
    ensures
        find_nl(s, i) == k,
    decreases k - i,
{
    if i < k {
        lemma_find_nl_is(s, i + 1, k);
    }
}

/// `find_nl` stays in range and is a newline unless it is the end.
pub proof fn lemma_find_nl_bounds(s: Seq<u8>, i: int)
    requires
        0 <= i <= s.len(),
    ensures
        i <= find_nl(s, i) <= s.len(),
        find_nl(s, i) < s.len() ==> s[find_nl(s, i)] == 10u8,
    decreases s.len() - i,
{
    if i < s.len() && s[i] != 10u8 {
        lemma_find_nl_bounds(s, i + 1);
    }
}

/// The lines of a byte sequence: the segments between newline bytes. A
/// sequence without a newline is one line; a trailing newline yields a final
/// empty line.
pub open spec fn d_lines(s: Seq<u8>) -> Seq<Seq<u8>>
    decreases s.len(),
    via d_lines_decreases
{
    let k = find_nl(s, 0);
    if k >= s.len() {
        seq![s]
    } else {
        seq![s.take(k)] + d_lines(s.skip(k + 1))
    }
}

#[via_fn]
proof fn d_lines_decreases(s: Seq<u8>) {
    lemma_find_nl_bounds(s, 0);
}

/// The dependency path named by one line of a `.d` file, as raw bytes: the
/// leading indentation byte is stripped, and when the line ends with the
/// continuation marker `\`, that marker and the byte before it are stripped
/// too.
pub open spec fn fragment_of(line: Seq<u8>) -> Seq<u8> {
    if line.len() >= 1 && line[line.len() - 1] == 92u8 {
        line.subrange(1, line.len() - 2)
    } else {
        line.subrange(1, line.len() as int)
    }
}

/// The dependency paths named by the given lines, each resolved through the
/// link resolver, in order. A line shorter than 4 bytes is skipped; one
/// whose fragment is not valid text, or whose resolution fails, is the
/// error of the whole parse, and the first such line decides.
pub open spec fn parse_lines(fs: Seq<EntryView>, lines: Seq<Seq<u8>>) -> Result<
    Seq<Seq<char>>,
    ErrorView,
>
    decreases lines.len(),
{
    if lines.len() == 0 {
        Ok(Seq::empty())
    } else {
        let line = lines[0];
        if line.len() < 4 {
            parse_lines(fs, lines.drop_first())
        } else {
            let frag = fragment_of(line);
            if !valid_utf8(frag) {
                Err(ErrorView::UnsuportedFileEncoding(frag))
            } else {
                match resolve_spec(fs, decode_utf8(frag)) {
                    Err(e) => Err(e),
                    Ok(p) => match parse_lines(fs, lines.drop_first()) {
                        Err(e) => Err(e),
                        Ok(rest) => Ok(seq![p] + rest),
                    },
                }
            }
        }
    }
}

/// The dependency paths of a `.d` file with the given contents: its first
/// line names the build target and is discarded, the rest are parsed.
pub open spec fn parse_d(fs: Seq<EntryView>, content: Seq<u8>) -> Result<
    Seq<Seq<char>>,
    ErrorView,
> {
    parse_lines(fs, d_lines(content).drop_first())
}

/// The dependency paths of the `.d` file at `file`, or `UnableToRead` when
/// the table holds no regular file there.
pub open spec fn parse_d_at(fs: Seq<EntryView>, file: Seq<char>) -> Result<
    Seq<Seq<char>>,
    ErrorView,
> {
    match lookup(fs, file) {
        Some(EntryKindView::File(content)) => parse_d(fs, content),
        _ => Err(ErrorView::UnableToRead(file)),
    }
}

/// Relies on `core::str::from_utf8`: it succeeds exactly on the byte
/// sequences that are valid UTF-8, and returns the string those bytes
/// encode.
#[verifier::external_body]
fn utf8_to_string(bytes: &[u8]) -> (r: Option<String>)
    ensures
        match r {
            Some(s) => valid_utf8(bytes@) && s@ == decode_utf8(bytes@),
            None => !valid_utf8(bytes@),
        },
{
    match core::str::from_utf8(bytes) {
        Ok(s) => Some(s.to_owned()),
        Err(_) => None,
    }
}

/// The index of the first newline byte of `content` at or after `from`, or
/// the length when there is none.
fn next_newline(content: &Vec<u8>, from: usize) -> (j: usize)
    requires
        from <= content@.len(),
    ensures
        from <= j <= content@.len(),
        forall|m: int| from <= m < j ==> content@[m] != 10u8,
        j < content@.len() ==> content@[j as int] == 10u8,
{
    let len = content.len();
    let mut j = from;
    while j < len
        invariant
            from <= j <= len,
            len == content@.len(),
            forall|m: int| from <= m < j ==> content@[m] != 10u8,
        decreases len - j,
    {
        if content[j] == 10u8 {
            return j;
        }
        j = j + 1;
    }
    j
}

/// Reads the `.d` file at `file` and inserts every dependency path listed
/// in it into `set`, each one resolved through the link resolver first. The
/// file's first line names the build target and is discarded. Fails when
/// `file` is not a regular file of the table, when a line fragment is not
/// valid text, or when a resolution fails; `set` then holds the insertions
/// made before the failing line.
pub fn read_d_file(fs: &FileSystem, file: &String, set: &mut DepSet) -> (r: Result<
    (),
    DependencyListerError,
>)
    requires
        old(set).wf(),
    ensures
        final(set).wf(),
        match parse_d_at(fs@, file@) {
            Ok(ps) => r is Ok && final(set)@ == insert_all(old(set)@, ps),
            Err(e) => r matches Err(a) && a@ == e,
        },
{
    let content: &Vec<u8> = match fs.query(file) {
        Some(EntryKind::File(content)) => content,
        _ => {
            return Err(DependencyListerError::UnableToRead(file.clone()));
        },
    };
    let ghost c = content@;
    let len = content.len();
    let j0 = next_newline(content, 0);
    proof {
        lemma_find_nl_is(c, 0, j0 as int);
    }
    if j0 == len {
        proof {
            assert(d_lines(c) == seq![c]);
            assert(d_lines(c).drop_first() =~= Seq::<Seq<u8>>::empty());
            assert(insert_all(old(set)@, Seq::empty()) == old(set)@);
        }
        return Ok(());
    }
    let mut pos: usize = j0 + 1;
    let ghost mut doneg: Seq<Seq<char>> = Seq::empty();
    proof {
        assert(c.skip(0) =~= c);
        lemma_find_nl_is(c.skip(0), 0, j0 as int);
        assert(d_lines(c) == seq![c.take(j0 as int)] + d_lines(c.skip(j0 + 1)));
        assert(d_lines(c).drop_first() =~= d_lines(c.skip(pos as int)));
        match parse_lines(fs@, d_lines(c.skip(pos as int))) {
            Ok(ps) => {
                assert(doneg + ps =~= ps);
            },
            Err(_) => {},
        }
    }
    while pos < len
        invariant
            pos <= len,
            len == c.len(),
            c == content@,
            lookup(fs@, file@) == Some(EntryKindView::File(c)),
            set.wf(),
            parse_d(fs@, c) == (match parse_lines(fs@, d_lines(c.skip(pos as int))) {
                Ok(ps) => Ok::<Seq<Seq<char>>, ErrorView>(doneg + ps),
                Err(e) => Err::<Seq<Seq<char>>, ErrorView>(e),
            }),
            set@ == insert_all(old(set)@, doneg),
        decreases len - pos,
    {
        let ghost s = c.skip(pos as int);
        let j = next_newline(content, pos);
        proof {
            lemma_find_nl_is(s, 0, j - pos);
        }
        let ghost line = s.take(j - pos);
        let ghost lines0 = d_lines(s);
        let ghost rest = lines0.drop_first();
        let ghost tr = parse_lines(fs@, lines0);
        let ghost tr_rest = parse_lines(fs@, rest);
        proof {
            if j < len {
                assert(s.skip(j - pos + 1) =~= c.skip(j + 1));
                assert(lines0 == seq![line] + d_lines(c.skip(j + 1)));
                assert(rest =~= d_lines(c.skip(j + 1)));
                assert(lines0[0] == line);
            } else {
                assert(line =~= s);
                assert(lines0 == seq![s]);
                assert(rest =~= Seq::<Seq<u8>>::empty());
                assert(lines0[0] == line);
            }
            assert(lines0.len() > 0);
        }
        let line_len = j - pos;
        if line_len >= 4 {
            let last = content[j - 1];
            let end: usize = if last == 92u8 {
                j - 2
            } else {
                j
            };
            proof {
                assert(line[line.len() - 1] == c[j - 1]);
                assert(fragment_of(line) =~= c.subrange(pos + 1, end as int));
            }
            let mut frag: Vec<u8> = Vec::new();
            let mut m = pos + 1;
            proof {
                assert(frag@ =~= c.subrange(pos + 1, pos + 1));
            }
            while m < end
                invariant
                    pos + 1 <= m <= end,
                    end <= len,
                    len == c.len(),
                    c == content@,
                    frag@ == c.subrange(pos + 1, m as int),
                decreases end - m,
            {
                let b = content[m];
                frag.push(b);
                proof {
                    assert(frag@ =~= c.subrange(pos + 1, m + 1));
                }
                m = m + 1;
            }
            match utf8_to_string(frag.as_slice()) {
                None => {
                    return Err(DependencyListerError::UnsuportedFileEncoding(frag));
                },
                Some(path_str) => {
                    match follow_links_if_needed(fs, path_str.as_str()) {
                        Err(e) => {
                            return Err(e);
                        },
                        Ok(target) => {
                            let ghost p = target@;
                            set.insert(target);
                            proof {
                                assert(resolve_spec(fs@, decode_utf8(fragment_of(line)))
                                    == Ok::<Seq<char>, ErrorView>(p));
                                lemma_insert_all_concat(old(set)@, doneg, seq![p]);
                                crate::dep_set::lemma_insert_all_singleton(
                                    insert_all(old(set)@, doneg),
                                    p,
                                );
                                assert(tr == (match tr_rest {
                                    Ok(ps) => Ok::<Seq<Seq<char>>, ErrorView>(seq![p] + ps),
                                    Err(e) => Err::<Seq<Seq<char>>, ErrorView>(e),
                                }));
                                match tr_rest {
                                    Ok(ps) => {
                                        assert(doneg + (seq![p] + ps) =~= (doneg + seq![p]) + ps);
                                    },
                                    Err(_) => {},
                                }
                                doneg = doneg + seq![p];
                            }
                        },
                    }
                },
            }
        }
        proof {
            if line.len() < 4 {
                assert(tr == tr_rest);
            }
        }
        if j < len {
            pos = j + 1;
        } else {
            pos = len;
            proof {
                assert(c.skip(len as int) =~= Seq::<u8>::empty());
                lemma_find_nl_is(Seq::<u8>::empty(), 0, 0);
                assert(d_lines(c.skip(len as int)) == seq![Seq::<u8>::empty()]);
                assert(seq![Seq::<u8>::empty()].drop_first() =~= Seq::<Seq<u8>>::empty());
                assert(parse_lines(fs@, Seq::<Seq<u8>>::empty()) == Ok::<
                    Seq<Seq<char>>,
                    ErrorView,
                >(Seq::empty()));
                assert(parse_lines(fs@, d_lines(c.skip(pos as int))) == Ok::<
                    Seq<Seq<char>>,
                    ErrorView,
                >(Seq::empty()));
                assert(tr_rest == Ok::<Seq<Seq<char>>, ErrorView>(Seq::empty()));
            }
        }
        proof {
            assert(parse_lines(fs@, d_lines(c.skip(pos as int))) == tr_rest);
        }
    }
    proof {
        assert(c.skip(len as int) =~= Seq::<u8>::empty());
        lemma_find_nl_is(Seq::<u8>::empty(), 0, 0);
        assert(d_lines(c.skip(len as int)) == seq![Seq::<u8>::empty()]);
        assert(seq![Seq::<u8>::empty()].drop_first() =~= Seq::<Seq<u8>>::empty());
        assert(parse_lines(fs@, Seq::<Seq<u8>>::empty()) == Ok::<Seq<Seq<char>>, ErrorView>(
            Seq::empty(),
        ));
        assert(parse_lines(fs@, d_lines(c.skip(len as int))) == Ok::<Seq<Seq<char>>, ErrorView>(
            Seq::empty(),
        ));
        assert(doneg + Seq::<Seq<char>>::empty() =~= doneg);
    }
    Ok(())
}

/// The dependency paths of the `.d` files `files`, in order: each file is
/// parsed in turn, and the first failure is the error of the whole
/// collection.
pub open spec fn collect_rec(fs: Seq<EntryView>, files: Seq<Seq<char>>) -> Result<
    Seq<Seq<char>>,
    ErrorView,
>
    decreases files.len(),
{
    if files.len() == 0 {
        Ok(Seq::empty())
    } else {
        match parse_d_at(fs, files[0]) {
            Err(e) => Err(e),
            Ok(ps) => match collect_rec(fs, files.drop_first()) {
                Err(e) => Err(e),
                Ok(rest) => Ok(ps + rest),
            },
        }
    }
}

/// The suffix that names a dependency file.
pub open spec fn d_suffix() -> Seq<char> {
    seq!['.', 'd']
}

/// What listing the dependencies under `root` returns: every path under
/// `root` ending in `.d` is collected, in traversal order with duplicates
/// collapsed, and each one is parsed; the result is the concatenation of
/// the parses, or the first error of the walk or of a parse.
pub open spec fn deps_result(fs: Seq<EntryView>, root: Seq<char>) -> Result<
    Seq<Seq<char>>,
    ErrorView,
> {
    match walk_dir(fs, root) {
        Err(e) => Err(e),
        Ok(all) => collect_rec(fs, insert_all(Seq::empty(), filter_suffix(all, d_suffix()))),
    }
}

/// From a directory, read all `.d` files and collect every dependency
/// listed in them, with every symbolic link resolved to its final target.
/// The first failure of the search, of a parse or of a resolution aborts
/// the whole listing.
pub fn get_all_dependencies_from_dir(fs: &FileSystem, dir_path: &str) -> (r: Result<
    DepSet,
    DependencyListerError,
>)
    ensures
        match deps_result(fs@, dir_path@) {
            Ok(ps) => r matches Ok(s) && s@ == insert_all(Seq::empty(), ps) && s.wf(),
            Err(e) => r matches Err(a) && a@ == e,
        },
{
    proof {
        reveal_strlit(".d");
        assert(".d"@ =~= d_suffix());
    }
    let all_d = match find_files(fs, dir_path, ".d") {
        Ok(s) => s,
        Err(e) => {
            return Err(e);
        },
    };
    let ghost dfiles = all_d@;
    let mut ret = DepSet::new();
    let n = all_d.len();
    let ghost mut doneg: Seq<Seq<char>> = Seq::empty();
    proof {
        assert(dfiles.skip(0) =~= dfiles);
        match collect_rec(fs@, dfiles) {
            Ok(ps) => {
                assert(doneg + ps =~= ps);
            },
            Err(_) => {},
        }
    }
    for i in 0..n
        invariant
            n == all_d@.len(),
            dfiles == all_d@,
            ret.wf(),
            ret@ == insert_all(Seq::empty(), doneg),
            deps_result(fs@, dir_path@) == (match collect_rec(fs@, dfiles.skip(i as int)) {
                Ok(ps) => Ok::<Seq<Seq<char>>, ErrorView>(doneg + ps),
                Err(e) => Err::<Seq<Seq<char>>, ErrorView>(e),
            }),
    {
        proof {
            assert(dfiles.skip(i as int)[0] == dfiles[i as int]);
            assert(dfiles.skip(i as int).drop_first() =~= dfiles.skip(i + 1));
        }
        let ghost tr_rest = collect_rec(fs@, dfiles.skip(i + 1));
        match read_d_file(fs, all_d.get(i), &mut ret) {
            Err(e) => {
                return Err(e);
            },
            Ok(_) => {
                proof {
                    let ps_i = (match parse_d_at(fs@, dfiles[i as int]) {
                        Ok(ps) => ps,
                        Err(_) => Seq::empty(),
                    });
                    lemma_insert_all_concat(Seq::empty(), doneg, ps_i);
                    match tr_rest {
                        Ok(ps) => {
                            assert(doneg + (ps_i + ps) =~= (doneg + ps_i) + ps);
                        },
                        Err(_) => {},
                    }
                    doneg = doneg + ps_i;
                }
            },
        }
    }
    proof {
        assert(dfiles.skip(n as int) =~= Seq::<Seq<char>>::empty());
        assert(collect_rec(fs@, Seq::<Seq<char>>::empty()) == Ok::<Seq<Seq<char>>, ErrorView>(
            Seq::empty(),
        ));
        assert(doneg + Seq::<Seq<char>>::empty() =~= doneg);
    }
    Ok(ret)
}

} // verus!
