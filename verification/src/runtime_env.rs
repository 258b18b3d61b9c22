use vstd::prelude::*;

use crate::text::{
    copy_range, strings, chars_equal, chars_of, join_chars, join_spec, split_chars, split_spec, string_of, views,
    lemma_split_nonempty, lemma_views_push, lemma_split_join, lemma_split_pieces_free_of_sep,
};

verus! {

/// Variables that only the AppImage wrapper uses, never handed to a shell.
pub open spec fn is_wrapper_only(key: Seq<char>) -> bool {
    ||| key == "APPDIR"@
    ||| key == "APPIMAGE"@
    ||| key == "ARGV0"@
    ||| key == "OWD"@
}

/// The non-empty segments of a path other than `.`.
pub open spec fn normal_segments(segments: Seq<Seq<char>>) -> Seq<Seq<char>>
    decreases segments.len(),
{
    if segments.len() == 0 {
        segments
    } else {
        let kept = normal_segments(segments.drop_last());
        let last = segments.last();
        if last.len() > 0 && last != seq!['.'] {
            kept.push(last)
        } else {
            kept
        }
    }
}

/// The components of a Unix path, as `std::path::Path` compares them: `/`
/// for a leading root, `.` for a leading current directory of a relative
/// path, then the segments between slashes, empty and `.` segments dropped.
/// Two paths are the same path exactly when their components are equal.
pub open spec fn path_components(path: Seq<char>) -> Seq<Seq<char>> {
    let segments = split_spec(path, '/');
    let head = if path.len() > 0 && path[0] == '/' {
        seq![seq!['/']]
    } else if segments[0] == seq!['.'] {
        seq![seq!['.']]
    } else {
        Seq::<Seq<char>>::empty()
    };
    head + normal_segments(segments)
}

/// The entries of a path list that are kept: the non-empty ones that do not
/// name the directory whose components are `bundled`.
pub open spec fn kept_entries(entries: Seq<Seq<char>>, bundled: Seq<Seq<char>>) -> Seq<Seq<char>>
    decreases entries.len(),
{
    if entries.len() == 0 {
        entries
    } else {
        let kept = kept_entries(entries.drop_last(), bundled);
        let last = entries.last();
        if last.len() > 0 && path_components(last) != bundled {
            kept.push(last)
        } else {
            kept
        }
    }
}

/// The kept entries are among the entries, non-empty and not naming the
/// bundled directory; an entry list of kept entries keeps all of them.
pub proof fn lemma_kept_entries(entries: Seq<Seq<char>>, bundled: Seq<Seq<char>>)
    ensures
        forall|i: int|
            0 <= i < kept_entries(entries, bundled).len() ==> {
                &&& (#[trigger] kept_entries(entries, bundled)[i]).len() > 0
                &&& path_components(kept_entries(entries, bundled)[i]) != bundled
                &&& entries.contains(kept_entries(entries, bundled)[i])
            },
        kept_entries(kept_entries(entries, bundled), bundled) == kept_entries(entries, bundled),
    decreases entries.len(),
{
    if entries.len() > 0 {
        let init = entries.drop_last();
        lemma_kept_entries(init, bundled);
        let kept = kept_entries(init, bundled);
        let last = entries.last();
        assert forall|i: int| 0 <= i < kept.len() implies entries.contains(#[trigger] kept[i]) by {
            let k = choose|k: int| 0 <= k < init.len() && init[k] == kept[i];
            assert(entries[k] == init[k]);
        }
        if last.len() > 0 && path_components(last) != bundled {
            assert(entries[entries.len() - 1] == last);
            assert(kept.push(last).drop_last() =~= kept);
        }
    }
}

/// `dir` joined with `path` as `Path::join` joins them: an absolute `path`
/// replaces `dir`, an empty `dir` gives `path`, and otherwise a `/` goes
/// between them unless `dir` already ends in one.
pub open spec fn joined_path(dir: Seq<char>, path: Seq<char>) -> Seq<char> {
    if path.len() > 0 && path[0] == '/' {
        path
    } else if dir.len() == 0 {
        path
    } else if dir.last() == '/' {
        dir + path
    } else {
        dir + seq!['/'] + path
    }
}

/// A colon-separated path list without the entries naming the same path as
/// `appdir` joined with `relative` (compared component by component) and
/// without empty entries; `None` when nothing is left. Without an `appdir`
/// the list is kept as it is.
pub open spec fn cleaned_path_list(
    value: Seq<char>,
    appdir: Option<Seq<char>>,
    relative: Seq<char>,
) -> Option<Seq<char>> {
    match appdir {
        None => Some(value),
        Some(dir) => {
            let bundled = path_components(joined_path(dir, relative));
            let cleaned = join_spec(kept_entries(split_spec(value, ':'), bundled), ':');
            if cleaned.len() == 0 {
                None
            } else {
                Some(cleaned)
            }
        },
    }
}

/// Cleaning a path list that has already been cleaned changes nothing: the
/// result names no bundled directory and holds no empty entry.
pub proof fn law_cleaning_is_idempotent(value: Seq<char>, appdir: Seq<char>, relative: Seq<char>)
    requires
        cleaned_path_list(value, Some(appdir), relative) is Some,
    ensures
        cleaned_path_list(
            cleaned_path_list(value, Some(appdir), relative)->0,
            Some(appdir),
            relative,
        ) == cleaned_path_list(value, Some(appdir), relative),
{
    let bundled = path_components(joined_path(appdir, relative));
    let entries = split_spec(value, ':');
    let kept = kept_entries(entries, bundled);
    lemma_kept_entries(entries, bundled);
    lemma_split_pieces_free_of_sep(value, ':');
    assert(kept.len() >= 1);
    assert forall|i: int| 0 <= i < kept.len() implies !(#[trigger] kept[i]).contains(':') by {
        let k = choose|k: int| 0 <= k < entries.len() && entries[k] == kept[i];
        assert(!entries[k].contains(':'));
    }
    lemma_split_join(kept, ':');
}

/// The `KEY=value` line handed to a shell for one variable, if any.
pub open spec fn environment_line(key: Seq<char>, value: Seq<char>, appdir: Option<Seq<char>>) -> Option<
    Seq<char>,
> {
    if is_wrapper_only(key) {
        None
    } else {
        let value = if key == "LD_LIBRARY_PATH"@ {
            cleaned_path_list(value, appdir, "usr/lib"@)
        } else if key == "XDG_DATA_DIRS"@ {
            cleaned_path_list(value, appdir, "usr/share"@)
        } else {
            Some(value)
        };
        match value {
            Some(v) => Some(key + seq!['='] + v),
            None => None,
        }
    }
}

/// The environment of a spawned shell, in the order of `vars`.
pub open spec fn terminal_environment_spec(
    vars: Seq<(Seq<char>, Seq<char>)>,
    appdir: Option<Seq<char>>,
) -> Seq<Seq<char>>
    decreases vars.len(),
{
    if vars.len() == 0 {
        Seq::<Seq<char>>::empty()
    } else {
        let lines = terminal_environment_spec(vars.drop_last(), appdir);
        match environment_line(vars.last().0, vars.last().1, appdir) {
            Some(line) => lines.push(line),
            None => lines,
        }
    }
}

/// Every line handed to a shell is `KEY=…` for a variable that was given
/// and is not one of the wrapper-only variables.
pub proof fn law_wrapper_variables_never_reach_shells(
    vars: Seq<(Seq<char>, Seq<char>)>,
    appdir: Option<Seq<char>>,
)
    ensures
        forall|k: int|
            0 <= k < terminal_environment_spec(vars, appdir).len() ==> exists|j: int|
                0 <= j < vars.len() && !is_wrapper_only(#[trigger] vars[j].0) && (
                #[trigger] terminal_environment_spec(vars, appdir)[k]).take(vars[j].0.len() + 1int)
                    == vars[j].0 + seq!['='],
    decreases vars.len(),
{
    if vars.len() > 0 {
        let init = vars.drop_last();
        law_wrapper_variables_never_reach_shells(init, appdir);
        let out = terminal_environment_spec(vars, appdir);
        let before = terminal_environment_spec(init, appdir);
        assert forall|k: int| 0 <= k < out.len() implies exists|j: int|
            0 <= j < vars.len() && !is_wrapper_only(#[trigger] vars[j].0) && (#[trigger] out[k]).take(
                vars[j].0.len() + 1int,
            ) == vars[j].0 + seq!['='] by {
            if k < before.len() {
                let j = choose|j: int|
                    0 <= j < init.len() && !is_wrapper_only(#[trigger] init[j].0) && before[k].take(
                        init[j].0.len() + 1int,
                    ) == init[j].0 + seq!['='];
                assert(vars[j] == init[j]);
                assert(out[k] == before[k]);
            } else {
                let j = vars.len() - 1;
                let key = vars[j].0;
                let line = environment_line(key, vars[j].1, appdir)->0;
                assert(out[k] == line);
                assert(line.take(key.len() + 1int) =~= key + seq!['=']);
            }
        }
    }
}

pub open spec fn str_pairs(vars: Seq<(&str, &str)>) -> Seq<(Seq<char>, Seq<char>)> {
    vars.map_values(|pair: (&str, &str)| (pair.0@, pair.1@))
}


fn segments_equal(a: &Vec<Vec<char>>, b: &Vec<Vec<char>>) -> (same: bool)
    ensures
        same == (views(a@) == views(b@)),
{
    if a.len() != b.len() {
        assert(views(a@).len() != views(b@).len());
        return false;
    }
    let mut i: usize = 0;
    while i < a.len()
        invariant
            a@.len() == b@.len(),
            0 <= i <= a@.len(),
            forall|j: int| 0 <= j < i ==> a@[j]@ == b@[j]@,
        decreases a@.len() - i,
    {
        if !chars_equal(a[i].as_slice(), b[i].as_slice()) {
            assert(views(a@)[i as int] != views(b@)[i as int]);
            return false;
        }
        i = i + 1;
    }
    assert(views(a@) =~= views(b@));
    true
}

fn path_components_of(path: &[char]) -> (components: Vec<Vec<char>>)
    ensures
        views(components@) == path_components(path@),
{
    let segments = split_chars(path, '/');
    proof {
        lemma_split_nonempty(path@, '/');
    }
    let mut dot: Vec<char> = Vec::new();
    dot.push('.');
    assert(dot@ =~= seq!['.']);
    let mut components: Vec<Vec<char>> = Vec::new();
    if path.len() > 0 && path[0] == '/' {
        let mut root: Vec<char> = Vec::new();
        root.push('/');
        assert(root@ =~= seq!['/']);
        components.push(root);
    } else if chars_equal(segments[0].as_slice(), dot.as_slice()) {
        let mut cur: Vec<char> = Vec::new();
        cur.push('.');
        assert(cur@ =~= seq!['.']);
        components.push(cur);
    }
    let ghost head = views(components@);
    let mut i: usize = 0;
    let ghost segs = views(segments@);
    assert(segs.take(0) =~= Seq::<Seq<char>>::empty());
    while i < segments.len()
        invariant
            0 <= i <= segments@.len(),
            segs == views(segments@),
            dot@ == seq!['.'],
            views(components@) == head + normal_segments(segs.take(i as int)),
        decreases segments@.len() - i,
    {
        assert(segs.take(i + 1).drop_last() =~= segs.take(i as int));
        let segment = &segments[i];
        assert(segs.take(i + 1).last() == segment@);
        if segment.len() > 0 && !chars_equal(segment.as_slice(), dot.as_slice()) {
            let copy = copy_range(segment.as_slice(), 0, segment.as_slice().len());
            proof {
                lemma_views_push(components@, copy);
            }
            components.push(copy);
            assert(views(components@) =~= head + normal_segments(segs.take(i + 1)));
        } else {
            assert(views(components@) =~= head + normal_segments(segs.take(i + 1)));
        }
        i = i + 1;
    }
    assert(segs.take(i as int) =~= segs);
    proof {
        if path@.len() > 0 && path@[0] == '/' {
            assert(head =~= seq![seq!['/']]);
        } else if segs[0] == seq!['.'] {
            assert(head =~= seq![seq!['.']]);
        } else {
            assert(head =~= Seq::<Seq<char>>::empty());
        }
    }
    components
}

fn join_path(dir: &[char], path: &[char]) -> (joined: Vec<char>)
    ensures
        joined@ == joined_path(dir@, path@),
{
    if (path.len() > 0 && path[0] == '/') || dir.len() == 0 {
        return copy_range(path, 0, path.len());
    }
    let mut joined = copy_range(dir, 0, dir.len());
    if dir[dir.len() - 1] != '/' {
        joined.push('/');
    }
    let mut i: usize = 0;
    let ghost start = joined@;
    while i < path.len()
        invariant
            0 <= i <= path@.len(),
            joined@ == start + path@.take(i as int),
        decreases path@.len() - i,
    {
        joined.push(path[i]);
        assert(path@.take(i + 1) =~= path@.take(i as int).push(path@[i as int]));
        i = i + 1;
    }
    assert(path@.take(i as int) =~= path@);
    joined
}

pub fn clean_appdir_path_list(value: &[char], appdir: Option<&[char]>, relative: &[char]) -> (cleaned:
    Option<Vec<char>>)
    ensures
        match cleaned {
            Some(c) => cleaned_path_list(
                value@,
                match appdir {
                    Some(a) => Some(a@),
                    None => None,
                },
                relative@,
            ) == Some(c@),
            None => cleaned_path_list(
                value@,
                match appdir {
                    Some(a) => Some(a@),
                    None => None,
                },
                relative@,
            ) is None,
        },
{
    let appdir = match appdir {
        None => {
            return Some(copy_range(value, 0, value.len()));
        },
        Some(dir) => dir,
    };
    let joined = join_path(appdir, relative);
    let bundled = path_components_of(joined.as_slice());
    let ghost target = views(bundled@);
    let entries = split_chars(value, ':');
    let ghost es = views(entries@);
    let mut kept: Vec<Vec<char>> = Vec::new();
    let mut i: usize = 0;
    assert(es.take(0) =~= Seq::<Seq<char>>::empty());
    while i < entries.len()
        invariant
            0 <= i <= entries@.len(),
            es == views(entries@),
            target == views(bundled@),
            views(kept@) == kept_entries(es.take(i as int), target),
        decreases entries@.len() - i,
    {
        assert(es.take(i + 1).drop_last() =~= es.take(i as int));
        let entry = &entries[i];
        if entry.len() > 0 && !segments_equal(&path_components_of(entry.as_slice()), &bundled) {
            let copy = copy_range(entry.as_slice(), 0, entry.as_slice().len());
            proof {
                lemma_views_push(kept@, copy);
            }
            kept.push(copy);
        }
        assert(views(kept@) =~= kept_entries(es.take(i + 1), target));
        i = i + 1;
    }
    assert(es.take(i as int) =~= es);
    let cleaned = join_chars(&kept, ':');
    if cleaned.len() == 0 {
        None
    } else {
        Some(cleaned)
    }
}

fn key_is(key: &[char], name: &str) -> (same: bool)
    ensures
        same == (key@ == name@),
{
    let name = chars_of(name);
    chars_equal(key, name.as_slice())
}

/// The environment for a shell spawned in a pane: every variable as
/// `KEY=value`, in order, except the wrapper-only ones, with the bundled
/// `APPDIR/usr/lib` and `APPDIR/usr/share` entries taken out of
/// `LD_LIBRARY_PATH` and `XDG_DATA_DIRS` (a list left empty drops the
/// variable).
pub fn terminal_environment_from(vars: &[(&str, &str)], appdir: Option<&str>) -> (lines: Vec<
    String,
>)
    ensures
        strings(lines@) == terminal_environment_spec(
            str_pairs(vars@),
            match appdir {
                Some(a) => Some(a@),
                None => None,
            },
        ),
{
    let ghost dir = match appdir {
        Some(a) => Some(a@),
        None => None,
    };
    let appdir_chars: Option<Vec<char>> = match appdir {
        Some(a) => Some(chars_of(a)),
        None => None,
    };
    let usr_lib = chars_of("usr/lib");
    let usr_share = chars_of("usr/share");
    let mut lines: Vec<String> = Vec::new();
    let ghost vs = str_pairs(vars@);
    let mut i: usize = 0;
    assert(vs.take(0) =~= Seq::<(Seq<char>, Seq<char>)>::empty());
    assert(strings(lines@) =~= Seq::<Seq<char>>::empty());
    while i < vars.len()
        invariant
            0 <= i <= vars@.len(),
            vs == str_pairs(vars@),
            usr_lib@ == "usr/lib"@,
            usr_share@ == "usr/share"@,
            match appdir_chars {
                Some(a) => dir == Some(a@),
                None => dir is None,
            },
            strings(lines@) == terminal_environment_spec(vs.take(i as int), dir),
        decreases vars@.len() - i,
    {
        assert(vs.take(i + 1).drop_last() =~= vs.take(i as int));
        assert(vs.take(i + 1).last() == (vars@[i as int].0@, vars@[i as int].1@));
        let (key, value) = vars[i];
        let key = chars_of(key);
        let value = chars_of(value);
        let wrapper_only = key_is(key.as_slice(), "APPDIR") || key_is(key.as_slice(), "APPIMAGE")
            || key_is(key.as_slice(), "ARGV0") || key_is(key.as_slice(), "OWD");
        if !wrapper_only {
            let dir_slice: Option<&[char]> = match &appdir_chars {
                Some(a) => Some(a.as_slice()),
                None => None,
            };
            assert(match dir_slice {
                Some(a) => Some(a@),
                None => None,
            } == dir);
            let cleaned = if key_is(key.as_slice(), "LD_LIBRARY_PATH") {
                clean_appdir_path_list(value.as_slice(), dir_slice, usr_lib.as_slice())
            } else if key_is(key.as_slice(), "XDG_DATA_DIRS") {
                clean_appdir_path_list(value.as_slice(), dir_slice, usr_share.as_slice())
            } else {
                Some(value)
            };
            let ghost key_view = key@;
            assert(match cleaned {
                Some(c) => environment_line(key_view, value@, dir) == Some(key_view + seq!['='] + c@),
                None => environment_line(key_view, value@, dir) is None,
            });
            if let Some(v) = cleaned {
                let mut line = key;
                line.push('=');
                let mut k: usize = 0;
                let ghost prefix = line@;
                while k < v.len()
                    invariant
                        0 <= k <= v@.len(),
                        line@ == prefix + v@.take(k as int),
                    decreases v@.len() - k,
                {
                    line.push(v[k]);
                    assert(v@.take(k + 1) =~= v@.take(k as int).push(v@[k as int]));
                    k = k + 1;
                }
                assert(v@.take(k as int) =~= v@);
                assert(line@ =~= key_view + seq!['='] + v@);
                let text = string_of(line.as_slice());
                assert(strings(lines@.push(text)) =~= strings(lines@).push(text@));
                lines.push(text);
            }
        }
        assert(strings(lines@) =~= terminal_environment_spec(vs.take(i + 1), dir));
        i = i + 1;
    }
    assert(vs.take(i as int) =~= vs);
    lines
}

} // verus!
