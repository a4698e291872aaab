//! Laws of the library, stated over the specification functions and proved
//! once and for all: what the file search returns, that link resolution is
//! idempotent and follows chains, and that the parser and the aggregator
//! return exactly the union of the resolved dependency paths.

use vstd::prelude::*;
use vstd::utf8::decode_utf8;
use vstd::utf8::valid_utf8;

use crate::dep_set::insert_all;
use crate::dep_set::lemma_insert_all_membership;
use crate::file_navigation::collect_rec;
use crate::file_navigation::d_lines;
use crate::file_navigation::d_suffix;
use crate::file_navigation::deps_result;
use crate::file_navigation::filter_suffix;
use crate::file_navigation::fragment_of;
use crate::file_navigation::parse_d;
use crate::file_navigation::parse_d_at;
use crate::file_navigation::parse_lines;
use crate::file_navigation::resolve_rec;
use crate::file_navigation::resolve_spec;
use crate::file_navigation::step_target;
use crate::file_navigation::suffix_pred;
use crate::file_navigation::walk_dir;
use crate::fs_model::EntryKindView;
use crate::fs_model::EntryView;
use crate::fs_model::lookup;
use crate::paths::ends_with;

verus! {

/// A path of a filtered sequence is a path of the sequence.
proof fn lemma_filter_member_of(all: Seq<Seq<char>>, suffix: Seq<char>, x: Seq<char>)
    ensures
        filter_suffix(all, suffix).contains(x) ==> all.contains(x),
    decreases all.len(),
{
    reveal_with_fuel(Seq::<_>::filter, 2);
    if all.len() > 0 && filter_suffix(all, suffix).contains(x) {
        lemma_filter_member_of(all.drop_last(), suffix, x);
        let f = filter_suffix(all, suffix);
        let fd = filter_suffix(all.drop_last(), suffix);
        if ends_with(all.last(), suffix) {
            assert(f == fd.push(all.last()));
            let i = choose|i: int| 0 <= i < f.len() && f[i] == x;
            if i < fd.len() {
                assert(fd.contains(x));
            } else {
                assert(x == all.last());
                assert(all[all.len() - 1] == x);
            }
        } else {
            assert(f == fd);
        }
        if all.drop_last().contains(x) {
            let i = choose|i: int| 0 <= i < all.drop_last().len() && all.drop_last()[i] == x;
            assert(all[i] == x);
        }
    }
}

/// Law: the set that the file search returns holds exactly the paths under
/// the root whose textual path ends with the suffix — every walked path that
/// matches, and no other.
pub proof fn lemma_found_set_members(all: Seq<Seq<char>>, suffix: Seq<char>, x: Seq<char>)
    ensures
        insert_all(Seq::empty(), filter_suffix(all, suffix)).contains(x) <==> (all.contains(x)
            && ends_with(x, suffix)),
{
    broadcast use vstd::seq_lib::group_filter_ensures;

    lemma_insert_all_membership(Seq::empty(), filter_suffix(all, suffix), x);
    lemma_filter_member_of(all, suffix, x);
    if all.contains(x) && ends_with(x, suffix) {
        let i = choose|i: int| 0 <= i < all.len() && all[i] == x;
        assert(all.filter(suffix_pred(suffix)).contains(all[i]));
    }
    if filter_suffix(all, suffix).contains(x) {
        let i = choose|i: int|
            0 <= i < filter_suffix(all, suffix).len() && filter_suffix(all, suffix)[i] == x;
        assert(suffix_pred(suffix)(filter_suffix(all, suffix)[i]));
    }
}

/// When resolution returns a path, that path is an existing non-link entry.
pub proof fn lemma_resolve_rec_final(
    fs: Seq<EntryView>,
    orig: Seq<char>,
    cur: Seq<char>,
    fuel: nat,
    q: Seq<char>,
)
    requires
        resolve_rec(fs, orig, cur, fuel) == Ok::<Seq<char>, crate::ErrorView>(q),
    ensures
        lookup(fs, q) matches Some(k) && !(k is Symlink),
    decreases fuel,
{
    match lookup(fs, cur) {
        Some(EntryKindView::Symlink(target)) => {
            lemma_resolve_rec_final(fs, orig, step_target(cur, target), (fuel - 1) as nat, q);
        },
        _ => {},
    }
}

/// Law: resolving a path that is not a link returns it unchanged.
pub proof fn lemma_resolve_not_link(fs: Seq<EntryView>, p: Seq<char>)
    requires
        lookup(fs, p) matches Some(k) && !(k is Symlink),
    ensures
        resolve_spec(fs, p) == Ok::<Seq<char>, crate::ErrorView>(p),
{
}

/// Law: resolution is idempotent — resolving what a resolution returned
/// returns the same path again.
pub proof fn lemma_resolve_idempotent(fs: Seq<EntryView>, p: Seq<char>, q: Seq<char>)
    requires
        resolve_spec(fs, p) == Ok::<Seq<char>, crate::ErrorView>(q),
    ensures
        resolve_spec(fs, q) == Ok::<Seq<char>, crate::ErrorView>(q),
{
    lemma_resolve_rec_final(fs, p, p, fs.len(), q);
}

/// A successful resolution does not depend on the fuel, once there is
/// enough, nor on the path reported for cycles.
pub proof fn lemma_resolve_rec_fuel(
    fs: Seq<EntryView>,
    orig: Seq<char>,
    orig2: Seq<char>,
    cur: Seq<char>,
    fuel: nat,
    fuel2: nat,
    q: Seq<char>,
)
    requires
        resolve_rec(fs, orig, cur, fuel) == Ok::<Seq<char>, crate::ErrorView>(q),
        fuel <= fuel2,
    ensures
        resolve_rec(fs, orig2, cur, fuel2) == Ok::<Seq<char>, crate::ErrorView>(q),
    decreases fuel,
{
    match lookup(fs, cur) {
        Some(EntryKindView::Symlink(target)) => {
            lemma_resolve_rec_fuel(
                fs,
                orig,
                orig2,
                step_target(cur, target),
                (fuel - 1) as nat,
                (fuel2 - 1) as nat,
                q,
            );
        },
        _ => {},
    }
}

/// Law: a link resolves to what its target's candidate resolves to, so a
/// chain of two links reaches the same final target as the chain of one.
pub proof fn lemma_resolve_follows_chain(
    fs: Seq<EntryView>,
    p: Seq<char>,
    target: Seq<char>,
    q: Seq<char>,
)
    requires
        lookup(fs, p) == Some(EntryKindView::Symlink(target)),
        resolve_spec(fs, p) == Ok::<Seq<char>, crate::ErrorView>(q),
    ensures
        resolve_spec(fs, step_target(p, target)) == Ok::<Seq<char>, crate::ErrorView>(q),
{
    let n = fs.len();
    assert(n > 0) by {
        if n == 0 {
            assert(lookup(fs, p) is None);
        }
    }
    lemma_resolve_rec_fuel(
        fs,
        p,
        step_target(p, target),
        step_target(p, target),
        (n - 1) as nat,
        n,
        q,
    );
}

/// Whether one line of a `.d` file names a dependency that resolves to `x`.
pub open spec fn line_yields(fs: Seq<EntryView>, line: Seq<u8>, x: Seq<char>) -> bool {
    line.len() >= 4 && valid_utf8(fragment_of(line)) && resolve_spec(
        fs,
        decode_utf8(fragment_of(line)),
    ) == Ok::<Seq<char>, crate::ErrorView>(x)
}

/// Law: a successful parse of a list of lines yields exactly the resolved
/// dependency paths of its qualifying lines.
pub proof fn lemma_parse_lines_members(
    fs: Seq<EntryView>,
    lines: Seq<Seq<u8>>,
    ps: Seq<Seq<char>>,
    x: Seq<char>,
)
    requires
        parse_lines(fs, lines) == Ok::<Seq<Seq<char>>, crate::ErrorView>(ps),
    ensures
        ps.contains(x) <==> exists|i: int|
            0 <= i < lines.len() && #[trigger] line_yields(fs, lines[i], x),
    decreases lines.len(),
{
    if lines.len() == 0 {
        assert(!ps.contains(x));
    } else {
        let line = lines[0];
        let rest = lines.drop_first();
        if line.len() < 4 {
            lemma_parse_lines_members(fs, rest, ps, x);
            if ps.contains(x) {
                let i = choose|i: int| 0 <= i < rest.len() && #[trigger] line_yields(
                    fs,
                    rest[i],
                    x,
                );
                assert(lines[i + 1] == rest[i]);
                assert(line_yields(fs, lines[i + 1], x));
            }
            if exists|i: int| 0 <= i < lines.len() && #[trigger] line_yields(fs, lines[i], x) {
                let i = choose|i: int|
                    0 <= i < lines.len() && #[trigger] line_yields(fs, lines[i], x);
                assert(i != 0);
                assert(rest[i - 1] == lines[i]);
                assert(line_yields(fs, rest[i - 1], x));
            }
        } else {
            let p = (match resolve_spec(fs, decode_utf8(fragment_of(line))) {
                Ok(p) => p,
                Err(_) => Seq::empty(),
            });
            let rest_ps = (match parse_lines(fs, rest) {
                Ok(rs) => rs,
                Err(_) => Seq::empty(),
            });
            assert(ps == seq![p] + rest_ps);
            lemma_parse_lines_members(fs, rest, rest_ps, x);
            assert(line_yields(fs, lines[0], x) <==> x == p);
            if ps.contains(x) {
                let i = choose|i: int| 0 <= i < ps.len() && ps[i] == x;
                if i == 0 {
                    assert(line_yields(fs, lines[0], x));
                } else {
                    assert(rest_ps[i - 1] == x);
                    assert(rest_ps.contains(x));
                    let m = choose|m: int| 0 <= m < rest.len() && #[trigger] line_yields(
                        fs,
                        rest[m],
                        x,
                    );
                    assert(lines[m + 1] == rest[m]);
                    assert(line_yields(fs, lines[m + 1], x));
                }
            }
            if exists|i: int| 0 <= i < lines.len() && #[trigger] line_yields(fs, lines[i], x) {
                let i = choose|i: int|
                    0 <= i < lines.len() && #[trigger] line_yields(fs, lines[i], x);
                if i == 0 {
                    assert(ps[0] == x);
                } else {
                    assert(rest[i - 1] == lines[i]);
                    assert(line_yields(fs, rest[i - 1], x));
                    assert(rest_ps.contains(x));
                    let m = choose|m: int| 0 <= m < rest_ps.len() && rest_ps[m] == x;
                    assert(ps[m + 1] == x);
                }
            }
        }
    }
}

/// Law: after a successful parse of a `.d` file into an accumulator, the
/// accumulator holds exactly its old members and the resolved dependency
/// paths of the file's qualifying lines — the first line is discarded and
/// duplicates are collapsed.
pub proof fn lemma_parse_d_members(
    fs: Seq<EntryView>,
    content: Seq<u8>,
    ps: Seq<Seq<char>>,
    acc: Seq<Seq<char>>,
    x: Seq<char>,
)
    requires
        parse_d(fs, content) == Ok::<Seq<Seq<char>>, crate::ErrorView>(ps),
    ensures
        insert_all(acc, ps).contains(x) <==> (acc.contains(x) || exists|i: int|
            1 <= i < d_lines(content).len() && #[trigger] line_yields(fs, d_lines(content)[i], x)),
{
    let lines = d_lines(content).drop_first();
    lemma_insert_all_membership(acc, ps, x);
    lemma_parse_lines_members(fs, lines, ps, x);
    if exists|i: int| 0 <= i < lines.len() && #[trigger] line_yields(fs, lines[i], x) {
        let i = choose|i: int| 0 <= i < lines.len() && #[trigger] line_yields(fs, lines[i], x);
        assert(d_lines(content)[i + 1] == lines[i]);
        assert(line_yields(fs, d_lines(content)[i + 1], x));
    }
    if exists|i: int|
        1 <= i < d_lines(content).len() && #[trigger] line_yields(fs, d_lines(content)[i], x) {
        let i = choose|i: int|
            1 <= i < d_lines(content).len() && #[trigger] line_yields(fs, d_lines(content)[i], x);
        assert(lines[i - 1] == d_lines(content)[i]);
        assert(line_yields(fs, lines[i - 1], x));
    }
}

/// Law: a successful collection over a list of `.d` files yields exactly
/// the paths some file of the list parses to.
pub proof fn lemma_collect_members(
    fs: Seq<EntryView>,
    files: Seq<Seq<char>>,
    ps: Seq<Seq<char>>,
    x: Seq<char>,
)
    requires
        collect_rec(fs, files) == Ok::<Seq<Seq<char>>, crate::ErrorView>(ps),
    ensures
        ps.contains(x) <==> exists|i: int|
            0 <= i < files.len() && (#[trigger] parse_d_at(fs, files[i]) matches Ok(qs)
                && qs.contains(x)),
    decreases files.len(),
{
    if files.len() == 0 {
        assert(!ps.contains(x));
    } else {
        let rest = files.drop_first();
        let qs0 = (match parse_d_at(fs, files[0]) {
            Ok(qs) => qs,
            Err(_) => Seq::empty(),
        });
        let rest_ps = (match collect_rec(fs, rest) {
            Ok(rs) => rs,
            Err(_) => Seq::empty(),
        });
        assert(ps == qs0 + rest_ps);
        lemma_collect_members(fs, rest, rest_ps, x);
        if ps.contains(x) {
            let i = choose|i: int| 0 <= i < ps.len() && ps[i] == x;
            if i < qs0.len() {
                assert(qs0[i] == x);
                assert(qs0.contains(x));
            } else {
                assert(rest_ps[i - qs0.len()] == x);
                assert(rest_ps.contains(x));
                let m = choose|m: int|
                    0 <= m < rest.len() && (#[trigger] parse_d_at(fs, rest[m]) matches Ok(qs)
                        && qs.contains(x));
                assert(files[m + 1] == rest[m]);
                assert(parse_d_at(fs, files[m + 1]) matches Ok(qs) && qs.contains(x));
            }
        }
        if exists|i: int|
            0 <= i < files.len() && (#[trigger] parse_d_at(fs, files[i]) matches Ok(qs)
                && qs.contains(x)) {
            let i = choose|i: int|
                0 <= i < files.len() && (#[trigger] parse_d_at(fs, files[i]) matches Ok(qs)
                    && qs.contains(x));
            if i == 0 {
                let m = choose|m: int| 0 <= m < qs0.len() && qs0[m] == x;
                assert(ps[m] == x);
            } else {
                assert(rest[i - 1] == files[i]);
                assert(parse_d_at(fs, rest[i - 1]) matches Ok(qs) && qs.contains(x));
                assert(rest_ps.contains(x));
                let m = choose|m: int| 0 <= m < rest_ps.len() && rest_ps[m] == x;
                assert(ps[qs0.len() + m] == x);
            }
        }
    }
}

/// Law: a successful listing returns the deduplicated union of the resolved
/// dependencies of every `.d` file under the root: a path is in the result
/// exactly when some walked path ending in `.d` parses to a list that holds
/// it.
pub proof fn lemma_dependencies_are_union(
    fs: Seq<EntryView>,
    root: Seq<char>,
    ps: Seq<Seq<char>>,
    x: Seq<char>,
)
    requires
        deps_result(fs, root) == Ok::<Seq<Seq<char>>, crate::ErrorView>(ps),
    ensures
        walk_dir(fs, root) is Ok,
        insert_all(Seq::empty(), ps).contains(x) <==> exists|f: Seq<char>|
            #![auto]
            (walk_dir(fs, root) matches Ok(all) && all.contains(f)) && ends_with(f, d_suffix())
                && (parse_d_at(fs, f) matches Ok(qs) && qs.contains(x)),
{
    let all = walk_dir(fs, root)->Ok_0;
    let dfs = insert_all(Seq::empty(), filter_suffix(all, d_suffix()));
    lemma_insert_all_membership(Seq::empty(), ps, x);
    lemma_collect_members(fs, dfs, ps, x);
    assert forall|f: Seq<char>| #![auto] dfs.contains(f) implies (all.contains(f) && ends_with(
        f,
        d_suffix(),
    )) by {
        lemma_found_set_members(all, d_suffix(), f);
    }
    if exists|i: int|
        0 <= i < dfs.len() && (#[trigger] parse_d_at(fs, dfs[i]) matches Ok(qs) && qs.contains(
            x,
        )) {
        let i = choose|i: int|
            0 <= i < dfs.len() && (#[trigger] parse_d_at(fs, dfs[i]) matches Ok(qs) && qs.contains(
                x,
            ));
        assert(dfs.contains(dfs[i]));
    }
    if exists|f: Seq<char>|
        #![auto]
        (walk_dir(fs, root) matches Ok(all2) && all2.contains(f)) && ends_with(f, d_suffix()) && (
        parse_d_at(fs, f) matches Ok(qs) && qs.contains(x)) {
        let f = choose|f: Seq<char>|
            #![auto]
            (walk_dir(fs, root) matches Ok(all2) && all2.contains(f)) && ends_with(f, d_suffix())
                && (parse_d_at(fs, f) matches Ok(qs) && qs.contains(x));
        lemma_found_set_members(all, d_suffix(), f);
        assert(dfs.contains(f));
        let i = choose|i: int| 0 <= i < dfs.len() && dfs[i] == f;
        assert(parse_d_at(fs, dfs[i]) matches Ok(qs) && qs.contains(x));
    }
}

/// Law: every member of a successful listing is the resolver's fixed point —
/// an existing non-link path, which resolving returns unchanged.
pub proof fn lemma_dependency_set_resolved(
    fs: Seq<EntryView>,
    root: Seq<char>,
    ps: Seq<Seq<char>>,
    x: Seq<char>,
)
    requires
        deps_result(fs, root) == Ok::<Seq<Seq<char>>, crate::ErrorView>(ps),
        insert_all(Seq::empty(), ps).contains(x),
    ensures
        resolve_spec(fs, x) == Ok::<Seq<char>, crate::ErrorView>(x),
{
    let all = walk_dir(fs, root)->Ok_0;
    let dfs = insert_all(Seq::empty(), filter_suffix(all, d_suffix()));
    lemma_insert_all_membership(Seq::empty(), ps, x);
    lemma_collect_members(fs, dfs, ps, x);
    let i = choose|i: int|
        0 <= i < dfs.len() && (#[trigger] parse_d_at(fs, dfs[i]) matches Ok(qs) && qs.contains(x));
    match lookup(fs, dfs[i]) {
        Some(EntryKindView::File(c)) => {
            let lines = d_lines(c).drop_first();
            let qs = parse_d_at(fs, dfs[i])->Ok_0;
            lemma_parse_lines_members(fs, lines, qs, x);
            let m = choose|m: int| 0 <= m < lines.len() && #[trigger] line_yields(
                fs,
                lines[m],
                x,
            );
            let p = decode_utf8(fragment_of(lines[m]));
            lemma_resolve_rec_final(fs, p, p, fs.len(), x);
            lemma_resolve_not_link(fs, x);
        },
        _ => {
            assert(false);
        },
    }
}

} // verus!
