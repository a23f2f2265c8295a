use vstd::prelude::*;

verus! {

/// Index of the last `c` in `s`, or -1 when `s` holds none.
pub open spec fn last_index(s: Seq<char>, c: char) -> int
    decreases s.len(),
{
    if s.len() == 0 {
        -1
    } else if s.last() == c {
        s.len() - 1
    } else {
        last_index(s.drop_last(), c)
    }
}

/// Index of the last `'.'` in `s`, or -1 when `s` holds none.
pub open spec fn last_dot(s: Seq<char>) -> int {
    last_index(s, '.')
}

/// The stem of a file name: the name without its extension. A name whose
/// only dot leads it (`.hidden`), a name without a dot, and `..` are their
/// own stem.
pub open spec fn file_stem(name: Seq<char>) -> Seq<char> {
    if name == seq!['.', '.'] || last_dot(name) <= 0 {
        name
    } else {
        name.subrange(0, last_dot(name))
    }
}

/// The extension written on every compiled file.
pub open spec fn css_extension() -> Seq<char> {
    seq!['.', 'c', 's', 's']
}

/// The name of the compiled file for the source file `name`: its stem with
/// the stylesheet extension.
pub open spec fn css_name(name: Seq<char>) -> Seq<char> {
    file_stem(name) + css_extension()
}

/// `name` placed in the directory `dir`, with one separator between them.
pub open spec fn join_path(dir: Seq<char>, name: Seq<char>) -> Seq<char> {
    if dir.len() == 0 || dir.last() == '/' {
        dir + name
    } else {
        dir + seq!['/'] + name
    }
}

proof fn lemma_last_index_at(s: Seq<char>, c: char, i: int)
    requires
        0 <= i <= s.len(),
        i == 0 || s[i - 1] == c,
        forall|k: int| i <= k < s.len() ==> s[k] != c,
    ensures
        last_index(s, c) == i - 1,
    decreases s.len(),
{
    if s.len() > 0 && i < s.len() {
        lemma_last_index_at(s.drop_last(), c, i);
    }
}

/// `s` without the separators that end it.
pub open spec fn trim_separators(s: Seq<char>) -> Seq<char>
    decreases s.len(),
{
    if s.len() > 0 && s.last() == '/' {
        trim_separators(s.drop_last())
    } else {
        s
    }
}

proof fn lemma_trim_at(s: Seq<char>, j: int)
    requires
        0 <= j <= s.len(),
        j == 0 || s[j - 1] != '/',
        forall|k: int| j <= k < s.len() ==> s[k] == '/',
    ensures
        trim_separators(s) == s.subrange(0, j),
    decreases s.len(),
{
    if j < s.len() {
        lemma_trim_at(s.drop_last(), j);
        assert(s.drop_last().subrange(0, j) =~= s.subrange(0, j));
    } else {
        assert(s.subrange(0, j) =~= s);
    }
}

/// A directory path split into its parent and its last component, where
/// the last component names an entry: not empty, `.` or `..`. A path of one
/// component has the parent `.`; one directly under the root has `/`.
pub open spec fn split_dir(path: Seq<char>) -> Option<(Seq<char>, Seq<char>)> {
    let t = trim_separators(path);
    let k = last_index(t, '/');
    let name = t.subrange(k + 1, t.len() as int);
    if name.len() == 0 || name == seq!['.'] || name == seq!['.', '.'] {
        None
    } else if k < 0 {
        Some((seq!['.'], name))
    } else if k == 0 {
        Some((seq!['/'], name))
    } else {
        Some((t.subrange(0, k), name))
    }
}

/// The parent of the directory `path` and the name of its last component,
/// where that component names an entry.
pub fn parent_and_name(path: &str) -> (r: Option<(String, String)>)
    ensures
        match r {
            Some((parent, name)) => split_dir(path@) == Some((parent@, name@)),
            None => split_dir(path@) is None,
        },
{
    let n = path.unicode_len();
    let mut j: usize = n;
    while j > 0 && path.get_char(j - 1) == '/'
        invariant
            j <= n,
            n == path@.len(),
            forall|k: int| j <= k < n ==> path@[k] == '/',
        decreases j,
    {
        j = j - 1;
    }
    proof {
        lemma_trim_at(path@, j as int);
    }
    let t = path.substring_char(0, j);
    let mut i: usize = j;
    while i > 0 && t.get_char(i - 1) != '/'
        invariant
            i <= j,
            j == t@.len(),
            forall|k: int| i <= k < j ==> t@[k] != '/',
        decreases i,
    {
        i = i - 1;
    }
    proof {
        lemma_last_index_at(t@, '/', i as int);
    }
    let name = t.substring_char(i, j);
    let m = j - i;
    let is_dot = m == 1 && name.get_char(0) == '.';
    let is_dot_dot = m == 2 && name.get_char(0) == '.' && name.get_char(1) == '.';
    proof {
        if is_dot {
            assert(name@ =~= seq!['.']);
        }
        if name@ == seq!['.'] {
            assert(is_dot);
        }
        if is_dot_dot {
            assert(name@ =~= seq!['.', '.']);
        }
        if name@ == seq!['.', '.'] {
            assert(is_dot_dot);
        }
    }
    if m == 0 || is_dot || is_dot_dot {
        return None;
    }
    let parent = if i == 0 {
        let here = ".";
        proof {
            reveal_strlit(".");
        }
        assert(here@ =~= seq!['.']);
        String::from_str(here)
    } else if i == 1 {
        let root = "/";
        proof {
            reveal_strlit("/");
        }
        assert(root@ =~= seq!['/']);
        String::from_str(root)
    } else {
        String::from_str(t.substring_char(0, i - 1))
    };
    Some((parent, String::from_str(name)))
}

/// The name of the compiled file for the source file `name`: the extension
/// replaced by `.css`, or added where `name` has none.
pub fn css_file_name(name: &str) -> (r: String)
    ensures
        r@ == css_name(name@),
{
    let n = name.unicode_len();
    let mut i: usize = n;
    while i > 0 && name.get_char(i - 1) != '.'
        invariant
            i <= n,
            n == name@.len(),
            forall|k: int| i <= k < n ==> name@[k] != '.',
        decreases i,
    {
        i = i - 1;
    }
    proof {
        lemma_last_index_at(name@, '.', i as int);
    }
    let is_parent = n == 2 && name.get_char(0) == '.' && name.get_char(1) == '.';
    proof {
        if is_parent {
            assert(name@ =~= seq!['.', '.']);
        }
        if name@ == seq!['.', '.'] {
            assert(is_parent);
        }
    }
    let stem = if is_parent || i <= 1 {
        name
    } else {
        name.substring_char(0, i - 1)
    };
    let mut r = String::from_str(stem);
    let ext = ".css";
    proof {
        reveal_strlit(".css");
    }
    r.append(ext);
    assert(ext@ =~= css_extension());
    r
}

/// The path of the file `name` inside the directory `dir`.
pub fn output_path(dir: &str, name: &str) -> (r: String)
    ensures
        r@ == join_path(dir@, name@),
{
    let n = dir.unicode_len();
    let mut r = String::from_str(dir);
    if n > 0 && dir.get_char(n - 1) != '/' {
        let sep = "/";
        proof {
            reveal_strlit("/");
        }
        r.append(sep);
        assert(sep@ =~= seq!['/']);
    }
    r.append(name);
    r
}

} // verus!
