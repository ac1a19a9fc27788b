//! Lexical path handling on Unix paths: splitting into components,
//! the final component, stem and extension, joining, and comparison.
use vstd::prelude::*;
use crate::text::{chars_of, string_of, seq_eq, copy_chars, concat_chars, append_chars, text_lt, compare_text, Order,
    lemma_text_lt_irreflexive, lemma_text_lt_asymmetric, lemma_text_lt_transitive, lemma_text_lt_total};

verus! {

/// `s` cut at every `/`, as `str::split('/')` does: `n` slashes give `n + 1` parts.
pub open spec fn split_slash(s: Seq<char>) -> Seq<Seq<char>>
    decreases s.len(),
{
    if s.len() == 0 {
        seq![Seq::<char>::empty()]
    } else if s.last() == '/' {
        split_slash(s.drop_last()).push(Seq::<char>::empty())
    } else {
        let p = split_slash(s.drop_last());
        p.update(p.len() - 1, p.last().push(s.last()))
    }
}

pub proof fn lemma_split_slash_nonempty(s: Seq<char>)
    ensures
        split_slash(s).len() >= 1,
    decreases s.len(),
{
    if s.len() > 0 {
        lemma_split_slash_nonempty(s.drop_last());
    }
}

/// A part of a path that names something: neither empty nor `.`.
pub open spec fn is_named_part(p: Seq<char>) -> bool {
    p.len() > 0 && p != seq!['.']
}

/// The parts that name something, in order.
pub open spec fn named_parts(parts: Seq<Seq<char>>) -> Seq<Seq<char>>
    decreases parts.len(),
{
    if parts.len() == 0 {
        Seq::empty()
    } else if is_named_part(parts.last()) {
        named_parts(parts.drop_last()).push(parts.last())
    } else {
        named_parts(parts.drop_last())
    }
}

/// The root component, written as it is in a path.
pub open spec fn root_component() -> Seq<char> {
    seq!['/']
}

/// The components of a path as `Path::components` yields them on Unix, each
/// written as text: the root as `/`, a leading current-directory mark as `.`,
/// a parent-directory mark as `..`, and every other component as its name.
/// Empty parts and inner `.` parts are dropped.
pub open spec fn path_components(s: Seq<char>) -> Seq<Seq<char>> {
    let parts = split_slash(s);
    if s.len() > 0 && s[0] == '/' {
        seq![root_component()] + named_parts(parts)
    } else if parts[0] == seq!['.'] {
        seq![seq!['.']] + named_parts(parts.drop_first())
    } else {
        named_parts(parts)
    }
}

/// A trailing slash does not change a non-empty path's components.
pub proof fn lemma_trailing_slash_components(t: Seq<char>)
    requires
        t.len() > 0,
    ensures
        path_components(t.push('/')) == path_components(t),
{
    let t2 = t.push('/');
    assert(t2.drop_last() =~= t);
    lemma_split_slash_nonempty(t);
    let parts = split_slash(t);
    let parts2 = split_slash(t2);
    assert(parts2 == parts.push(Seq::<char>::empty()));
    assert(named_parts(parts2) == named_parts(parts)) by {
        assert(parts2.drop_last() =~= parts);
    }
    assert(t2[0] == t[0]);
    assert(parts2[0] == parts[0]);
    let d2 = parts2.drop_first();
    assert(d2.drop_last() =~= parts.drop_first());
    assert(d2.last() == Seq::<char>::empty());
    assert(named_parts(d2) == named_parts(parts.drop_first()));
}

/// A component that is a name (not the root, `.` or `..`).
pub open spec fn is_normal_component(c: Seq<char>) -> bool {
    c != root_component() && c != seq!['.'] && c != seq!['.', '.']
}

/// `Path::file_name`: the last component when it is a name.
pub open spec fn path_file_name(s: Seq<char>) -> Option<Seq<char>> {
    let comps = path_components(s);
    if comps.len() > 0 && is_normal_component(comps.last()) {
        Some(comps.last())
    } else {
        None
    }
}

/// The index of the last `.` in `s`, or -1.
pub open spec fn last_dot(s: Seq<char>) -> int
    decreases s.len(),
{
    if s.len() == 0 {
        -1
    } else if s.last() == '.' {
        s.len() - 1
    } else {
        last_dot(s.drop_last())
    }
}

/// How `Path` splits a file name at its last dot: `(before, after)`.
/// A name without a dot, or whose only dot is its first character, or `..`,
/// is not split.
pub open spec fn split_at_last_dot(name: Seq<char>) -> (Option<Seq<char>>, Option<Seq<char>>) {
    let k = last_dot(name);
    if name == seq!['.', '.'] {
        (Some(name), None)
    } else if k < 0 {
        (None, Some(name))
    } else if k == 0 {
        (Some(name), None)
    } else {
        (Some(name.take(k)), Some(name.skip(k + 1)))
    }
}

/// `Path::file_stem`.
pub open spec fn path_file_stem(s: Seq<char>) -> Option<Seq<char>> {
    match path_file_name(s) {
        Some(name) => {
            let (before, after) = split_at_last_dot(name);
            if before is Some { before } else { after }
        },
        None => None,
    }
}

/// `Path::extension`.
pub open spec fn path_extension(s: Seq<char>) -> Option<Seq<char>> {
    match path_file_name(s) {
        Some(name) => {
            let (before, after) = split_at_last_dot(name);
            if before is Some { after } else { None }
        },
        None => None,
    }
}

/// `PathBuf::join` of a relative or absolute `name` onto `dir`.
pub open spec fn path_join(dir: Seq<char>, name: Seq<char>) -> Seq<char> {
    if name.len() > 0 && name[0] == '/' {
        name
    } else if dir.len() > 0 && dir.last() != '/' {
        dir + seq!['/'] + name
    } else {
        dir + name
    }
}

/// Two paths are the same when their components are: `Path`'s `==`.
pub open spec fn same_path_spec(a: Seq<char>, b: Seq<char>) -> bool {
    path_components(a) == path_components(b)
}

/// `path` sits directly in `dir`: its parent has the components of `dir`.
pub open spec fn inside_dir_spec(path: Seq<char>, dir: Seq<char>) -> bool {
    let comps = path_components(path);
    &&& comps.len() > 0
    &&& comps.last() != root_component()
    &&& comps.drop_last() == path_components(dir)
}

/// The name shown for a path: its file name, or the whole path when it has none.
pub open spec fn display_name(path: Seq<char>) -> Seq<char> {
    match path_file_name(path) {
        Some(name) => name,
        None => path,
    }
}

/// A path with a leading `~` taken to mean the home directory.
pub open spec fn expand_home_spec(path: Seq<char>, home: Seq<char>) -> Seq<char> {
    if path == seq!['~'] {
        home
    } else if path.len() >= 2 && path[0] == '~' && path[1] == '/' {
        path_join(home, path.skip(2))
    } else {
        path
    }
}

/// The character sequences held by a vector of character vectors.
pub open spec fn char_vecs(v: Seq<Vec<char>>) -> Seq<Seq<char>> {
    Seq::new(v.len(), |i: int| v[i]@)
}

pub open spec fn opt_view(o: Option<String>) -> Option<Seq<char>> {
    match o {
        Some(s) => Some(s@),
        None => None,
    }
}

/// Splits at every `/`.
pub fn split_at_slashes(s: &Vec<char>) -> (parts: Vec<Vec<char>>)
    ensures
        char_vecs(parts@) == split_slash(s@),
{
    let mut parts: Vec<Vec<char>> = Vec::new();
    let mut cur: Vec<char> = Vec::new();
    let mut i: usize = 0;
    while i < s.len()
        invariant
            i <= s.len(),
            char_vecs(parts@).push(cur@) == split_slash(s@.take(i as int)),
        decreases s.len() - i,
    {
        let c = s[i];
        let ghost before = char_vecs(parts@).push(cur@);
        proof {
            assert(s@.take(i as int + 1).drop_last() == s@.take(i as int));
            assert(s@.take(i as int + 1).last() == c);
        }
        if c == '/' {
            parts.push(cur);
            cur = Vec::new();
            assert(char_vecs(parts@).push(cur@) == before.push(Seq::<char>::empty()));
        } else {
            let ghost old_cur = cur@;
            cur.push(c);
            assert(char_vecs(parts@).push(cur@) == before.update(
                before.len() - 1,
                before.last().push(c),
            ));
        }
        i = i + 1;
    }
    assert(s@.take(s@.len() as int) == s@);
    parts.push(cur);
    parts
}

/// Keeps the named parts of `parts[from..]`.
fn keep_named(parts: &Vec<Vec<char>>, from: usize, out: &mut Vec<Vec<char>>)
    requires
        from <= parts.len(),
    ensures
        char_vecs(final(out)@) == char_vecs(old(out)@) + named_parts(
            char_vecs(parts@).skip(from as int),
        ),
{
    let ghost start = char_vecs(out@);
    let ghost src = char_vecs(parts@).skip(from as int);
    let mut i: usize = from;
    while i < parts.len()
        invariant
            from <= i <= parts.len(),
            src == char_vecs(parts@).skip(from as int),
            char_vecs(out@) == start + named_parts(src.take(i - from)),
        decreases parts.len() - i,
    {
        proof {
            assert(src.take(i - from + 1).drop_last() == src.take(i - from));
            assert(src.take(i - from + 1).last() == parts[i as int]@);
        }
        let p = &parts[i];
        let named = p.len() > 0 && !(p.len() == 1 && p[0] == '.');
        proof {
            if p@ == seq!['.'] {
                assert(p@.len() == 1 && p@[0] == '.');
            }
            if p.len() == 1 && p[0] == '.' {
                assert(p@ == seq!['.']);
            }
        }
        let ghost prev = out@;
        if named {
            out.push(copy_chars(p));
            assert(char_vecs(out@) == char_vecs(prev).push(p@));
        }
        assert(named == is_named_part(p@));
        i = i + 1;
    }
    assert(src.take(parts.len() - from) == src);
}

/// The components of a path (see `path_components`).
pub fn path_components_of(path: &str) -> (comps: Vec<Vec<char>>)
    ensures
        char_vecs(comps@) == path_components(path@),
{
    let s = chars_of(path);
    let parts = split_at_slashes(&s);
    proof { lemma_split_slash_nonempty(s@); }
    let mut comps: Vec<Vec<char>> = Vec::new();
    if s.len() > 0 && s[0] == '/' {
        let mut root: Vec<char> = Vec::new();
        root.push('/');
        comps.push(root);
        assert(char_vecs(comps@) == seq![root_component()]);
        keep_named(&parts, 0, &mut comps);
        assert(char_vecs(parts@).skip(0) == char_vecs(parts@));
    } else if parts[0].len() == 1 && parts[0][0] == '.' {
        assert(char_vecs(parts@)[0] == seq!['.']);
        let mut cur: Vec<char> = Vec::new();
        cur.push('.');
        comps.push(cur);
        assert(char_vecs(comps@) == seq![seq!['.']]);
        keep_named(&parts, 1, &mut comps);
        assert(char_vecs(parts@).skip(1) == char_vecs(parts@).drop_first());
    } else {
        proof {
            if char_vecs(parts@)[0] == seq!['.'] {
                assert(parts[0]@.len() == 1 && parts[0]@[0] == '.');
            }
        }
        keep_named(&parts, 0, &mut comps);
        assert(char_vecs(parts@).skip(0) == char_vecs(parts@));
        assert(Seq::<Seq<char>>::empty() + named_parts(char_vecs(parts@)) == named_parts(char_vecs(parts@)));
    }
    comps
}

} // verus!

verus! {

fn is_single(v: &Vec<char>, c: char) -> (r: bool)
    ensures
        r == (v@ == seq![c]),
{
    let r = v.len() == 1 && v[0] == c;
    proof {
        if v@ == seq![c] {
            assert(v@.len() == 1 && v@[0] == c);
        }
        if r {
            assert(v@ == seq![c]);
        }
    }
    r
}

fn is_dot_dot(v: &Vec<char>) -> (r: bool)
    ensures
        r == (v@ == seq!['.', '.']),
{
    let r = v.len() == 2 && v[0] == '.' && v[1] == '.';
    proof {
        if v@ == seq!['.', '.'] {
            assert(v@.len() == 2 && v@[0] == '.' && v@[1] == '.');
        }
        if r {
            assert(v@ == seq!['.', '.']);
        }
    }
    r
}

fn is_normal(c: &Vec<char>) -> (r: bool)
    ensures
        r == is_normal_component(c@),
{
    !is_single(c, '/') && !is_single(c, '.') && !is_dot_dot(c)
}

/// Whether two lists of components are equal.
fn components_eq(a: &Vec<Vec<char>>, b: &Vec<Vec<char>>) -> (r: bool)
    ensures
        r == (char_vecs(a@) == char_vecs(b@)),
{
    if a.len() != b.len() {
        assert(char_vecs(a@).len() != char_vecs(b@).len());
        return false;
    }
    let mut i: usize = 0;
    while i < a.len()
        invariant
            i <= a.len(),
            a.len() == b.len(),
            forall|j: int| 0 <= j < i ==> a@[j]@ == b@[j]@,
        decreases a.len() - i,
    {
        if !seq_eq(a[i].as_slice(), b[i].as_slice()) {
            assert(char_vecs(a@)[i as int] != char_vecs(b@)[i as int]);
            return false;
        }
        i = i + 1;
    }
    assert(char_vecs(a@) == char_vecs(b@));
    true
}

/// `Path::file_name` of `path`.
pub fn file_name_of(path: &str) -> (r: Option<String>)
    ensures
        opt_view(r) == path_file_name(path@),
{
    let comps = path_components_of(path);
    if comps.len() > 0 && is_normal(&comps[comps.len() - 1]) {
        assert(char_vecs(comps@).last() == comps@[comps.len() - 1]@);
        Some(string_of(comps[comps.len() - 1].as_slice()))
    } else {
        proof {
            if comps.len() > 0 {
                assert(char_vecs(comps@).last() == comps@[comps.len() - 1]@);
            }
        }
        None
    }
}

/// Whether two paths have the same components, as `Path`'s `==` decides.
pub fn same_path(a: &str, b: &str) -> (r: bool)
    ensures
        r == same_path_spec(a@, b@),
{
    let ca = path_components_of(a);
    let cb = path_components_of(b);
    components_eq(&ca, &cb)
}

/// Whether `path` sits directly in `dir`.
pub fn is_inside_dir(path: &str, dir: &str) -> (r: bool)
    ensures
        r == inside_dir_spec(path@, dir@),
{
    let mut cp = path_components_of(path);
    let cd = path_components_of(dir);
    if cp.len() == 0 {
        return false;
    }
    let ghost all = char_vecs(cp@);
    let last = cp.pop().unwrap();
    assert(all.last() == last@);
    assert(char_vecs(cp@) == all.drop_last());
    if is_single(&last, '/') {
        return false;
    }
    components_eq(&cp, &cd)
}

/// `dir` joined with `name`, as `Path::join` does.
pub fn join_path(dir: &str, name: &str) -> (r: String)
    ensures
        r@ == path_join(dir@, name@),
{
    let d = chars_of(dir);
    let n = chars_of(name);
    if n.len() > 0 && n[0] == '/' {
        string_of(n.as_slice())
    } else if d.len() > 0 && d[d.len() - 1] != '/' {
        let mut v = copy_chars(d.as_slice());
        v.push('/');
        append_chars(&mut v, n.as_slice());
        string_of(v.as_slice())
    } else {
        let v = concat_chars(d.as_slice(), n.as_slice());
        string_of(v.as_slice())
    }
}

/// The index of the last dot, or `None`.
fn find_last_dot(s: &Vec<char>) -> (r: Option<usize>)
    ensures
        match r {
            Some(k) => k == last_dot(s@) && k < s.len(),
            None => last_dot(s@) == -1,
        },
{
    let mut i = s.len();
    assert(s@.take(i as int) == s@);
    while i > 0
        invariant
            i <= s.len(),
            last_dot(s@) == last_dot(s@.take(i as int)),
        decreases i,
    {
        assert(s@.take(i as int).drop_last() == s@.take(i as int - 1));
        if s[i - 1] == '.' {
            return Some(i - 1);
        }
        i = i - 1;
    }
    None
}

/// A copy of `s[from..to]`.
pub fn sub_chars(s: &Vec<char>, from: usize, to: usize) -> (r: Vec<char>)
    requires
        from <= to <= s.len(),
    ensures
        r@ == s@.subrange(from as int, to as int),
{
    let mut r: Vec<char> = Vec::new();
    let mut i = from;
    while i < to
        invariant
            from <= i <= to <= s.len(),
            r@ == s@.subrange(from as int, i as int),
        decreases to - i,
    {
        r.push(s[i]);
        assert(s@.subrange(from as int, i as int + 1) == s@.subrange(from as int, i as int).push(s@[i as int]));
        i = i + 1;
    }
    r
}

/// How `Path` splits a file name at its last dot.
pub fn split_name_at_last_dot(name: &Vec<char>) -> (r: (Option<Vec<char>>, Option<Vec<char>>))
    ensures
        (match r.0 { Some(v) => Some(v@), None => None::<Seq<char>> },
         match r.1 { Some(v) => Some(v@), None => None::<Seq<char>> }) == split_at_last_dot(name@),
{
    if is_dot_dot(name) {
        return (Some(copy_chars(name.as_slice())), None);
    }
    match find_last_dot(name) {
        None => (None, Some(copy_chars(name.as_slice()))),
        Some(k) => {
            if k == 0 {
                (Some(copy_chars(name.as_slice())), None)
            } else {
                let before = sub_chars(name, 0, k);
                let after = sub_chars(name, k + 1, name.len());
                assert(before@ == name@.take(k as int));
                assert(after@ == name@.skip(k as int + 1));
                (Some(before), Some(after))
            }
        },
    }
}

/// `Path::file_stem` and `Path::extension` of `path`.
pub fn stem_and_extension(path: &str) -> (r: (Option<String>, Option<String>))
    ensures
        opt_view(r.0) == path_file_stem(path@),
        opt_view(r.1) == path_extension(path@),
{
    match file_name_of(path) {
        None => (None, None),
        Some(name) => {
            let chars = chars_of(name.as_str());
            let (before, after) = split_name_at_last_dot(&chars);
            match before {
                Some(b) => {
                    let ext = match after {
                        Some(a) => Some(string_of(a.as_slice())),
                        None => None,
                    };
                    (Some(string_of(b.as_slice())), ext)
                },
                None => {
                    let stem = match after {
                        Some(a) => Some(string_of(a.as_slice())),
                        None => None,
                    };
                    (stem, None)
                },
            }
        },
    }
}

/// The name shown for a path: its file name, or the whole path when it has none.
pub fn file_name(path: &str) -> (r: String)
    ensures
        r@ == display_name(path@),
{
    match file_name_of(path) {
        Some(name) => name,
        None => string_of(chars_of(path).as_slice()),
    }
}

/// `path` with a leading `~` replaced by `home`.
pub fn expand_home(path: &str, home: &str) -> (r: String)
    ensures
        r@ == expand_home_spec(path@, home@),
{
    let p = chars_of(path);
    if p.len() == 1 && p[0] == '~' {
        assert(p@ == seq!['~']);
        return string_of(chars_of(home).as_slice());
    }
    proof {
        if p@ == seq!['~'] {
            assert(p@.len() == 1 && p@[0] == '~');
        }
    }
    if p.len() >= 2 && p[0] == '~' && p[1] == '/' {
        let rest = sub_chars(&p, 2, p.len());
        assert(rest@ == p@.skip(2));
        let rest_s = string_of(rest.as_slice());
        join_path(home, rest_s.as_str())
    } else {
        string_of(p.as_slice())
    }
}

} // verus!

verus! {

/// The rank of a component in `Path`'s order: the root, then `.`, then `..`,
/// then names.
pub open spec fn component_rank(c: Seq<char>) -> int {
    if c == root_component() {
        0
    } else if c == seq!['.'] {
        1
    } else if c == seq!['.', '.'] {
        2
    } else {
        3
    }
}

/// `Component`'s order.
pub open spec fn component_lt(a: Seq<char>, b: Seq<char>) -> bool {
    component_rank(a) < component_rank(b) || (component_rank(a) == 3 && component_rank(b) == 3 && text_lt(a, b))
}

/// Lexicographic order on lists of components.
pub open spec fn components_lt(a: Seq<Seq<char>>, b: Seq<Seq<char>>) -> bool
    decreases a.len(),
{
    if a.len() == 0 {
        b.len() > 0
    } else if b.len() == 0 {
        false
    } else if a[0] != b[0] {
        component_lt(a[0], b[0])
    } else {
        components_lt(a.drop_first(), b.drop_first())
    }
}

/// `Path`'s order: component by component.
pub open spec fn path_lt(a: Seq<char>, b: Seq<char>) -> bool {
    components_lt(path_components(a), path_components(b))
}

proof fn lemma_component_lt_facts(a: Seq<char>, b: Seq<char>, c: Seq<char>)
    ensures
        !component_lt(a, a),
        component_lt(a, b) ==> !component_lt(b, a),
        component_lt(a, b) && component_lt(b, c) ==> component_lt(a, c),
        a == b || component_lt(a, b) || component_lt(b, a),
{
    lemma_text_lt_irreflexive(a);
    lemma_text_lt_asymmetric(a, b);
    if component_lt(a, b) && component_lt(b, c) && component_rank(a) == 3 && component_rank(c) == 3 {
        lemma_text_lt_transitive(a, b, c);
    }
    lemma_text_lt_total(a, b);
}

pub proof fn lemma_components_lt_irreflexive(a: Seq<Seq<char>>)
    ensures
        !components_lt(a, a),
    decreases a.len(),
{
    if a.len() > 0 {
        lemma_components_lt_irreflexive(a.drop_first());
    }
}

pub proof fn lemma_components_lt_asymmetric(a: Seq<Seq<char>>, b: Seq<Seq<char>>)
    ensures
        components_lt(a, b) ==> !components_lt(b, a),
    decreases a.len(),
{
    if a.len() > 0 && b.len() > 0 {
        if a[0] == b[0] {
            lemma_components_lt_asymmetric(a.drop_first(), b.drop_first());
        } else {
            lemma_component_lt_facts(a[0], b[0], a[0]);
        }
    }
}

pub proof fn lemma_components_lt_transitive(a: Seq<Seq<char>>, b: Seq<Seq<char>>, c: Seq<Seq<char>>)
    requires
        components_lt(a, b),
        components_lt(b, c),
    ensures
        components_lt(a, c),
    decreases a.len(),
{
    if a.len() > 0 && b.len() > 0 && c.len() > 0 {
        lemma_component_lt_facts(a[0], b[0], c[0]);
        lemma_component_lt_facts(b[0], a[0], c[0]);
        lemma_component_lt_facts(a[0], c[0], b[0]);
        if a[0] == b[0] && b[0] == c[0] {
            lemma_components_lt_transitive(a.drop_first(), b.drop_first(), c.drop_first());
        }
    }
}

pub proof fn lemma_components_lt_total(a: Seq<Seq<char>>, b: Seq<Seq<char>>)
    ensures
        a == b || components_lt(a, b) || components_lt(b, a),
    decreases a.len(),
{
    if a.len() > 0 && b.len() > 0 {
        if a[0] == b[0] {
            lemma_components_lt_total(a.drop_first(), b.drop_first());
            if a.drop_first() == b.drop_first() {
                assert(a == seq![a[0]] + a.drop_first());
                assert(b == seq![b[0]] + b.drop_first());
            }
        } else {
            lemma_component_lt_facts(a[0], b[0], a[0]);
        }
    } else if a.len() == 0 && b.len() == 0 {
        assert(a == b);
    }
}

/// The facts about `Path`'s order that sorting relies on.
pub proof fn lemma_path_lt_order(a: Seq<char>, b: Seq<char>, c: Seq<char>)
    ensures
        !path_lt(a, a),
        path_lt(a, b) ==> !path_lt(b, a),
        path_lt(a, b) && path_lt(b, c) ==> path_lt(a, c),
        same_path_spec(a, b) || path_lt(a, b) || path_lt(b, a),
        same_path_spec(a, b) ==> !path_lt(a, b),
        same_path_spec(a, b) ==> (path_lt(a, c) == path_lt(b, c) && path_lt(c, a) == path_lt(c, b)),
{
    let (x, y, z) = (path_components(a), path_components(b), path_components(c));
    lemma_components_lt_irreflexive(x);
    lemma_components_lt_asymmetric(x, y);
    if components_lt(x, y) && components_lt(y, z) {
        lemma_components_lt_transitive(x, y, z);
    }
    lemma_components_lt_total(x, y);
}

fn component_rank_of(c: &Vec<char>) -> (r: u8)
    ensures
        r as int == component_rank(c@),
{
    if is_single(c, '/') {
        0
    } else if is_single(c, '.') {
        1
    } else if is_dot_dot(c) {
        2
    } else {
        3
    }
}

/// Whether `a` comes before `b` in `Path`'s order.
pub fn path_less(a: &str, b: &str) -> (r: bool)
    ensures
        r == path_lt(a@, b@),
{
    let ca = path_components_of(a);
    let cb = path_components_of(b);
    let ghost x = char_vecs(ca@);
    let ghost y = char_vecs(cb@);
    let mut i: usize = 0;
    assert(x.skip(0) == x);
    assert(y.skip(0) == y);
    while i < ca.len() && i < cb.len()
        invariant
            i <= ca@.len(),
            i <= cb@.len(),
            x == path_components(a@),
            y == path_components(b@),
            x == char_vecs(ca@),
            y == char_vecs(cb@),
            components_lt(x, y) == components_lt(x.skip(i as int), y.skip(i as int)),
        decreases ca.len() - i,
    {
        let ghost xs = x.skip(i as int);
        let ghost ys = y.skip(i as int);
        assert(xs[0] == ca@[i as int]@);
        assert(ys[0] == cb@[i as int]@);
        if !seq_eq(ca[i].as_slice(), cb[i].as_slice()) {
            assert(components_lt(xs, ys) == component_lt(xs[0], ys[0]));
            let ra = component_rank_of(&ca[i]);
            let rb = component_rank_of(&cb[i]);
            if ra != rb {
                return ra < rb;
            }
            if ra < 3 {
                // equal ranks below names mean equal components
                assert(false);
                return false;
            }
            let o = compare_text(ca[i].as_slice(), cb[i].as_slice());
            return match o {
                Order::Less => true,
                _ => false,
            };
        }
        assert(xs.drop_first() == x.skip(i as int + 1));
        assert(ys.drop_first() == y.skip(i as int + 1));
        i = i + 1;
    }
    let ghost xs = x.skip(i as int);
    let ghost ys = y.skip(i as int);
    i == ca.len() && i < cb.len()
}

} // verus!
