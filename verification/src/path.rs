//! Unix paths as character sequences, with the meaning that `std::path::Path` gives them:
//! components, equality and order by components, `join`, `parent`, `extension` and
//! `with_extension`.
use vstd::prelude::*;

use crate::text::{chars_eq, chars_lt, chars_lt_exec, concat_chars, slice_chars, split_exec, split_on};

verus! {

/// The path starts at the file system root.
pub open spec fn has_root(s: Seq<char>) -> bool {
    s.len() > 0 && s[0] == '/'
}

/// A relative path whose first component is `.`, which `Path` keeps as a component.
pub open spec fn has_cur_dir(s: Seq<char>) -> bool {
    !has_root(s) && s.len() > 0 && s[0] == '.' && (s.len() == 1 || s[1] == '/')
}

/// Where the part of the path after its root or leading `.` begins.
pub open spec fn body_start(s: Seq<char>) -> int {
    if has_root(s) || has_cur_dir(s) {
        1
    } else {
        0
    }
}

/// A piece between separators that is a component: not empty and not `.`.
pub open spec fn seg_real(seg: Seq<char>) -> bool {
    seg.len() > 0 && seg != seq!['.']
}

pub open spec fn real_segs(segs: Seq<Seq<char>>) -> Seq<Seq<char>>
    decreases segs.len(),
{
    if segs.len() == 0 {
        Seq::empty()
    } else if seg_real(segs.last()) {
        real_segs(segs.drop_last()).push(segs.last())
    } else {
        real_segs(segs.drop_last())
    }
}

/// The components of a path. The root is written `/`, a leading current directory `.`,
/// a parent directory `..` and any other component by its name, which holds no `/` and is
/// neither `.` nor `..`; so this encoding is one to one.
pub open spec fn components(s: Seq<char>) -> Seq<Seq<char>> {
    let pre: Seq<Seq<char>> = if has_root(s) {
        seq![seq!['/']]
    } else if has_cur_dir(s) {
        seq![seq!['.']]
    } else {
        Seq::empty()
    };
    pre + real_segs(split_on(s.skip(body_start(s)), '/'))
}

/// Two paths that `Path` compares equal: they have the same components.
pub open spec fn same_path(p: Seq<char>, q: Seq<char>) -> bool {
    components(p) == components(q)
}

/// Rank of a component in `std::path::Component`'s order: root, `.`, `..`, names.
pub open spec fn comp_rank(c: Seq<char>) -> int {
    if c == seq!['/'] {
        0
    } else if c == seq!['.'] {
        1
    } else if c == seq!['.', '.'] {
        2
    } else {
        3
    }
}

pub open spec fn comp_lt(a: Seq<char>, b: Seq<char>) -> bool {
    comp_rank(a) < comp_rank(b) || (comp_rank(a) == 3 && comp_rank(b) == 3 && chars_lt(a, b))
}

/// Lexicographic order of component sequences.
pub open spec fn comps_lt(a: Seq<Seq<char>>, b: Seq<Seq<char>>) -> bool
    decreases a.len(),
{
    if a.len() == 0 {
        b.len() > 0
    } else if b.len() == 0 {
        false
    } else if a[0] != b[0] {
        comp_lt(a[0], b[0])
    } else {
        comps_lt(a.drop_first(), b.drop_first())
    }
}

/// The order of `Path`: by components.
pub open spec fn path_lt(p: Seq<char>, q: Seq<char>) -> bool {
    comps_lt(components(p), components(q))
}

/// `Path::join`: an absolute second path replaces the first; otherwise a separator is
/// put between them unless the first is empty or already ends with one.
pub open spec fn join(a: Seq<char>, b: Seq<char>) -> Seq<char> {
    if has_root(b) {
        b
    } else if a.len() > 0 && a.last() != '/' {
        a + seq!['/'] + b
    } else {
        a + b
    }
}

/// The end of `s[..e]` once trailing separators and `.` pieces after `lo` are dropped.
pub open spec fn trim_tail(s: Seq<char>, lo: int, e: int) -> int
    decreases e,
{
    if e <= lo || e <= 0 || e > s.len() {
        if e <= lo { lo } else { e }
    } else if s[e - 1] == '/' {
        trim_tail(s, lo, e - 1)
    } else if s[e - 1] == '.' && (e - 1 == lo || (e >= 2 && s[e - 2] == '/')) {
        trim_tail(s, lo, e - 1)
    } else {
        e
    }
}

/// Where the last piece of `s[lo..e]` begins: just after its last separator, or `lo`.
pub open spec fn last_seg_start(s: Seq<char>, lo: int, e: int) -> int
    decreases e,
{
    if e <= lo || e <= 0 || e > s.len() {
        lo
    } else if s[e - 1] == '/' {
        e
    } else {
        last_seg_start(s, lo, e - 1)
    }
}

/// End of the last component of the body, `body_start(s)` when the body has none.
pub open spec fn last_end(s: Seq<char>) -> int {
    trim_tail(s, body_start(s), s.len() as int)
}

/// `Path::file_name`: the last component when it is a name.
pub open spec fn file_name(s: Seq<char>) -> Option<Seq<char>> {
    let lo = body_start(s);
    let e = last_end(s);
    if e > lo {
        let name = s.subrange(last_seg_start(s, lo, e), e);
        if name == seq!['.', '.'] {
            None
        } else {
            Some(name)
        }
    } else {
        None
    }
}

/// `Path::parent`: the path without its last component, with trailing separators and `.`
/// pieces dropped; `None` for the root and the empty path.
pub open spec fn parent(s: Seq<char>) -> Option<Seq<char>> {
    let lo = body_start(s);
    let e = last_end(s);
    if e > lo {
        Some(s.take(trim_tail(s, lo, last_seg_start(s, lo, e))))
    } else if has_cur_dir(s) {
        Some(Seq::empty())
    } else {
        None
    }
}

/// Index of the last `.` in `name`.
pub open spec fn last_dot(name: Seq<char>) -> Option<int>
    decreases name.len(),
{
    if name.len() == 0 {
        None
    } else if name.last() == '.' {
        Some(name.len() - 1)
    } else {
        last_dot(name.drop_last())
    }
}

/// `Path::extension`: what follows the last `.` of the file name, unless that `.` is the
/// name's first character.
pub open spec fn extension(s: Seq<char>) -> Option<Seq<char>> {
    match file_name(s) {
        Some(name) => match last_dot(name) {
            Some(k) => if k > 0 {
                Some(name.skip(k + 1))
            } else {
                None
            },
            None => None,
        },
        None => None,
    }
}

/// `Path::with_extension`: the path cut right after the file stem, then `.` and `ext`
/// unless `ext` is empty; unchanged when the path has no file name.
pub open spec fn with_extension(s: Seq<char>, ext: Seq<char>) -> Seq<char> {
    match file_name(s) {
        Some(name) => {
            let st = last_seg_start(s, body_start(s), last_end(s));
            let stem_end = match last_dot(name) {
                Some(k) => if k > 0 {
                    st + k
                } else {
                    last_end(s)
                },
                None => last_end(s),
            };
            s.take(stem_end) + (if ext.len() > 0 {
                seq!['.'] + ext
            } else {
                Seq::empty()
            })
        },
        None => s,
    }
}

// ---------------------------------------------------------------------------------------
// Executable counterparts.
pub fn has_root_exec(s: &Vec<char>) -> (r: bool)
    ensures
        r == has_root(s@),
{
    s.len() > 0 && s[0] == '/'
}

pub fn has_cur_dir_exec(s: &Vec<char>) -> (r: bool)
    ensures
        r == has_cur_dir(s@),
{
    !has_root_exec(s) && s.len() > 0 && s[0] == '.' && (s.len() == 1 || s[1] == '/')
}

pub fn body_start_exec(s: &Vec<char>) -> (r: usize)
    ensures
        r == body_start(s@),
        r <= s@.len(),
{
    if has_root_exec(s) || has_cur_dir_exec(s) {
        1
    } else {
        0
    }
}

fn seg_real_exec(seg: &Vec<char>) -> (r: bool)
    ensures
        r == seg_real(seg@),
{
    proof {
        if seg@.len() == 1 && seg@[0] == '.' {
            assert(seg@ =~= seq!['.']);
        }
    }
    seg.len() > 0 && !(seg.len() == 1 && seg[0] == '.')
}

/// The components of a path, encoded as in [`components`].
pub fn components_exec(s: &Vec<char>) -> (r: Vec<Vec<char>>)
    ensures
        r@.len() == components(s@).len(),
        forall|i: int| 0 <= i < r@.len() ==> #[trigger] r@[i]@ == components(s@)[i],
{
    let mut out: Vec<Vec<char>> = Vec::new();
    let ghost pre: Seq<Seq<char>> = if has_root(s@) {
        seq![seq!['/']]
    } else if has_cur_dir(s@) {
        seq![seq!['.']]
    } else {
        Seq::empty()
    };
    if has_root_exec(s) {
        let mut c: Vec<char> = Vec::new();
        c.push('/');
        out.push(c);
    } else if has_cur_dir_exec(s) {
        let mut c: Vec<char> = Vec::new();
        c.push('.');
        out.push(c);
    }
    proof {
        assert(out@.len() == pre.len());
        if pre.len() == 1 {
            assert(out@[0]@ =~= pre[0]);
        }
    }
    let start = body_start_exec(s);
    let body = slice_chars(s, start, s.len());
    let segs = split_exec(&body, '/');
    let ghost ss = split_on(body@, '/');
    let mut k: usize = 0;
    proof {
        assert(body@ == s@.skip(body_start(s@)));
        assert(ss.take(0) =~= Seq::<Seq<char>>::empty());
    }
    while k < segs.len()
        invariant
            k <= segs@.len(),
            segs@.len() == ss.len(),
            forall|i: int| 0 <= i < segs@.len() ==> #[trigger] segs@[i]@ == ss[i],
            out@.len() == (pre + real_segs(ss.take(k as int))).len(),
            forall|i: int|
                0 <= i < out@.len() ==> #[trigger] out@[i]@ == (pre + real_segs(
                    ss.take(k as int),
                ))[i],
        decreases segs@.len() - k,
    {
        proof {
            assert(ss.take(k as int + 1).drop_last() =~= ss.take(k as int));
            assert(ss.take(k as int + 1).last() == ss[k as int]);
        }
        if seg_real_exec(&segs[k]) {
            out.push(segs[k].clone());
        }
        k = k + 1;
    }
    proof {
        assert(ss.take(ss.len() as int) =~= ss);
    }
    out
}

/// Equality of two component lists.
pub fn comps_eq_exec(a: &Vec<Vec<char>>, b: &Vec<Vec<char>>) -> (r: bool)
    ensures
        r == (a@.map_values(|v: Vec<char>| v@) == b@.map_values(|v: Vec<char>| v@)),
{
    let ghost av = a@.map_values(|v: Vec<char>| v@);
    let ghost bv = b@.map_values(|v: Vec<char>| v@);
    if a.len() != b.len() {
        assert(av.len() != bv.len());
        return false;
    }
    let mut k: usize = 0;
    while k < a.len()
        invariant
            k <= a@.len(),
            a@.len() == b@.len(),
            av == a@.map_values(|v: Vec<char>| v@),
            bv == b@.map_values(|v: Vec<char>| v@),
            forall|m: int| 0 <= m < k ==> av[m] == bv[m],
        decreases a@.len() - k,
    {
        if !chars_eq(&a[k], &b[k]) {
            assert(av[k as int] != bv[k as int]);
            return false;
        }
        k = k + 1;
    }
    proof {
        assert(av =~= bv);
    }
    true
}

pub fn comp_rank_exec(c: &Vec<char>) -> (r: u8)
    ensures
        r as int == comp_rank(c@),
{
    proof {
        if c@.len() == 1 && c@[0] == '/' {
            assert(c@ =~= seq!['/']);
        }
        if c@.len() == 1 && c@[0] == '.' {
            assert(c@ =~= seq!['.']);
        }
        if c@.len() == 2 && c@[0] == '.' && c@[1] == '.' {
            assert(c@ =~= seq!['.', '.']);
        }
    }
    if c.len() == 1 && c[0] == '/' {
        0
    } else if c.len() == 1 && c[0] == '.' {
        1
    } else if c.len() == 2 && c[0] == '.' && c[1] == '.' {
        2
    } else {
        3
    }
}

/// Whether the component list `a` orders strictly before `b`.
pub fn comps_lt_exec(a: &Vec<Vec<char>>, b: &Vec<Vec<char>>) -> (r: bool)
    ensures
        r == comps_lt(a@.map_values(|v: Vec<char>| v@), b@.map_values(|v: Vec<char>| v@)),
{
    let ghost av = a@.map_values(|v: Vec<char>| v@);
    let ghost bv = b@.map_values(|v: Vec<char>| v@);
    let mut k: usize = 0;
    proof {
        assert(av.skip(0) =~= av);
        assert(bv.skip(0) =~= bv);
    }
    while k < a.len() && k < b.len() && chars_eq(&a[k], &b[k])
        invariant
            k <= a@.len(),
            k <= b@.len(),
            av == a@.map_values(|v: Vec<char>| v@),
            bv == b@.map_values(|v: Vec<char>| v@),
            comps_lt(av, bv) == comps_lt(av.skip(k as int), bv.skip(k as int)),
        decreases a@.len() - k,
    {
        proof {
            assert(av.skip(k as int).drop_first() =~= av.skip(k as int + 1));
            assert(bv.skip(k as int).drop_first() =~= bv.skip(k as int + 1));
        }
        k = k + 1;
    }
    if k == a.len() {
        k < b.len()
    } else if k == b.len() {
        false
    } else {
        proof {
            assert(av.skip(k as int)[0] == av[k as int]);
            assert(bv.skip(k as int)[0] == bv[k as int]);
        }
        let ra = comp_rank_exec(&a[k]);
        let rb = comp_rank_exec(&b[k]);
        ra < rb || (ra == 3 && rb == 3 && chars_lt_exec(&a[k], &b[k]))
    }
}

/// A path together with its components, so that comparisons need not split it again.
pub struct KeyedPath {
    pub path: Vec<char>,
    pub comps: Vec<Vec<char>>,
}

impl KeyedPath {
    pub open spec fn wf(&self) -> bool {
        self.comps@.map_values(|v: Vec<char>| v@) == components(self.path@)
    }

    pub fn new(path: Vec<char>) -> (r: KeyedPath)
        ensures
            r.wf(),
            r.path@ == path@,
    {
        let comps = components_exec(&path);
        proof {
            assert(comps@.map_values(|v: Vec<char>| v@) =~= components(path@));
        }
        KeyedPath { path, comps }
    }

    pub fn same(&self, other: &KeyedPath) -> (r: bool)
        requires
            self.wf(),
            other.wf(),
        ensures
            r == same_path(self.path@, other.path@),
    {
        comps_eq_exec(&self.comps, &other.comps)
    }

    pub fn lt(&self, other: &KeyedPath) -> (r: bool)
        requires
            self.wf(),
            other.wf(),
        ensures
            r == path_lt(self.path@, other.path@),
    {
        comps_lt_exec(&self.comps, &other.comps)
    }
}

/// `Path::join` on character vectors.
pub fn join_exec(a: &Vec<char>, b: &Vec<char>) -> (r: Vec<char>)
    ensures
        r@ == join(a@, b@),
{
    if has_root_exec(b) {
        b.clone()
    } else if a.len() > 0 && a[a.len() - 1] != '/' {
        let mut t = a.clone();
        t.push('/');
        concat_chars(&t, b)
    } else {
        concat_chars(a, b)
    }
}

fn trim_tail_exec(s: &Vec<char>, lo: usize, e: usize) -> (r: usize)
    requires
        lo <= e <= s@.len(),
    ensures
        r == trim_tail(s@, lo as int, e as int),
        lo <= r <= e,
{
    let mut k = e;
    while k > lo && (s[k - 1] == '/' || (s[k - 1] == '.' && (k - 1 == lo || (k >= 2 && s[k - 2]
        == '/'))))
        invariant
            lo <= k <= e <= s@.len(),
            trim_tail(s@, lo as int, e as int) == trim_tail(s@, lo as int, k as int),
        decreases k,
    {
        k = k - 1;
    }
    k
}

fn last_seg_start_exec(s: &Vec<char>, lo: usize, e: usize) -> (r: usize)
    requires
        lo <= e <= s@.len(),
    ensures
        r == last_seg_start(s@, lo as int, e as int),
        lo <= r <= e,
{
    let mut k = e;
    while k > lo && s[k - 1] != '/'
        invariant
            lo <= k <= e <= s@.len(),
            last_seg_start(s@, lo as int, e as int) == last_seg_start(s@, lo as int, k as int),
        decreases k,
    {
        k = k - 1;
    }
    k
}

fn last_dot_exec(name: &Vec<char>) -> (r: Option<usize>)
    ensures
        r matches Some(k) ==> last_dot(name@) == Some(k as int) && k < name@.len(),
        r is None ==> last_dot(name@) is None,
{
    let mut k = name.len();
    proof {
        assert(name@.take(k as int) =~= name@);
    }
    while k > 0 && name[k - 1] != '.'
        invariant
            k <= name@.len(),
            last_dot(name@) == last_dot(name@.take(k as int)),
        decreases k,
    {
        proof {
            assert(name@.take(k as int).drop_last() =~= name@.take(k as int - 1));
        }
        k = k - 1;
    }
    if k == 0 {
        proof {
            assert(name@.take(0) =~= Seq::<char>::empty());
        }
        None
    } else {
        Some(k - 1)
    }
}

/// `Path::file_name`, with the index where the name starts and ends.
fn file_name_exec(s: &Vec<char>) -> (r: Option<(usize, usize)>)
    ensures
        r is None <==> file_name(s@) is None,
        r matches Some((st, e)) ==> {
            &&& st <= e <= s@.len()
            &&& st as int == last_seg_start(s@, body_start(s@), last_end(s@))
            &&& e as int == last_end(s@)
            &&& file_name(s@) == Some(s@.subrange(st as int, e as int))
        },
{
    let lo = body_start_exec(s);
    let e = trim_tail_exec(s, lo, s.len());
    if e > lo {
        let st = last_seg_start_exec(s, lo, e);
        proof {
            let name = s@.subrange(st as int, e as int);
            if e - st == 2 && s@[st as int] == '.' && s@[st + 1] == '.' {
                assert(name =~= seq!['.', '.']);
            }
            if name == seq!['.', '.'] {
                assert(name.len() == 2);
                assert(name[0] == s@[st as int]);
                assert(name[1] == s@[st + 1]);
            }
        }
        if e - st == 2 && s[st] == '.' && s[st + 1] == '.' {
            None
        } else {
            Some((st, e))
        }
    } else {
        None
    }
}

/// `Path::parent` on character vectors.
pub fn parent_exec(s: &Vec<char>) -> (r: Option<Vec<char>>)
    ensures
        r matches Some(p) ==> parent(s@) == Some(p@),
        r is None ==> parent(s@) is None,
{
    let lo = body_start_exec(s);
    let e = trim_tail_exec(s, lo, s.len());
    if e > lo {
        let st = last_seg_start_exec(s, lo, e);
        let end = trim_tail_exec(s, lo, st);
        Some(slice_chars(s, 0, end))
    } else if has_cur_dir_exec(s) {
        Some(Vec::new())
    } else {
        None
    }
}

/// `Path::extension` on character vectors.
pub fn extension_exec(s: &Vec<char>) -> (r: Option<Vec<char>>)
    ensures
        r matches Some(x) ==> extension(s@) == Some(x@),
        r is None ==> extension(s@) is None,
{
    match file_name_exec(s) {
        Some((st, e)) => {
            let name = slice_chars(s, st, e);
            match last_dot_exec(&name) {
                Some(k) => {
                    if k > 0 {
                        Some(slice_chars(&name, k + 1, name.len()))
                    } else {
                        None
                    }
                },
                None => None,
            }
        },
        None => None,
    }
}

/// `Path::with_extension` on character vectors.
pub fn with_extension_exec(s: &Vec<char>, ext: &Vec<char>) -> (r: Vec<char>)
    ensures
        r@ == with_extension(s@, ext@),
{
    match file_name_exec(s) {
        Some((st, e)) => {
            let name = slice_chars(s, st, e);
            let stem_end = match last_dot_exec(&name) {
                Some(k) => if k > 0 {
                    st + k
                } else {
                    e
                },
                None => e,
            };
            let mut out = slice_chars(s, 0, stem_end);
            if ext.len() > 0 {
                out.push('.');
                out = concat_chars(&out, ext);
                proof {
                    assert(out@ =~= s@.take(stem_end as int) + (seq!['.'] + ext@));
                }
            } else {
                proof {
                    assert(out@ =~= s@.take(stem_end as int) + Seq::<char>::empty());
                }
            }
            out
        },
        None => s.clone(),
    }
}


// ---------------------------------------------------------------------------------------
// Sorting paths.
/// Where `x` goes in `sorted` so that it follows every path that does not order after it.
pub open spec fn path_insert_pos(sorted: Seq<Seq<char>>, x: Seq<char>) -> int
    decreases sorted.len(),
{
    if sorted.len() == 0 {
        0
    } else if path_lt(x, sorted[0]) {
        0
    } else {
        1 + path_insert_pos(sorted.drop_first(), x)
    }
}

/// The stable sort by `Path` order (`Vec<PathBuf>::sort`), as insertion of each path in turn.
pub open spec fn sort_paths(s: Seq<Seq<char>>) -> Seq<Seq<char>>
    decreases s.len(),
{
    if s.len() == 0 {
        s
    } else {
        let sorted = sort_paths(s.drop_last());
        sorted.insert(path_insert_pos(sorted, s.last()), s.last())
    }
}

pub open spec fn keyed_view(v: Seq<KeyedPath>) -> Seq<Seq<char>> {
    v.map_values(|k: KeyedPath| k.path@)
}

pub open spec fn all_wf(v: Seq<KeyedPath>) -> bool {
    forall|i: int| 0 <= i < v.len() ==> (#[trigger] v[i]).wf()
}

fn path_insert_pos_exec(sorted: &Vec<KeyedPath>, x: &KeyedPath) -> (i: usize)
    requires
        all_wf(sorted@),
        x.wf(),
    ensures
        i as int == path_insert_pos(keyed_view(sorted@), x.path@),
        i <= sorted@.len(),
{
    let ghost sv = keyed_view(sorted@);
    let mut i: usize = 0;
    proof {
        assert(sv.skip(0) =~= sv);
    }
    while i < sorted.len() && !x.lt(&sorted[i])
        invariant
            i <= sorted@.len(),
            all_wf(sorted@),
            x.wf(),
            sv == keyed_view(sorted@),
            path_insert_pos(sv, x.path@) == i + path_insert_pos(sv.skip(i as int), x.path@),
        decreases sorted@.len() - i,
    {
        proof {
            assert(sv.skip(i as int)[0] == sv[i as int]);
            assert(sv.skip(i as int).drop_first() =~= sv.skip(i as int + 1));
        }
        i = i + 1;
    }
    proof {
        if i < sorted@.len() {
            assert(sv.skip(i as int)[0] == sv[i as int]);
        }
    }
    i
}

/// Sorts paths by `Path` order, keeping the given order among equal paths.
pub fn sort_keyed_paths(v: Vec<KeyedPath>) -> (r: Vec<KeyedPath>)
    requires
        all_wf(v@),
    ensures
        all_wf(r@),
        keyed_view(r@) == sort_paths(keyed_view(v@)),
{
    let mut out: Vec<KeyedPath> = Vec::new();
    let mut v = v;
    // Take the paths in their order: reverse once, then pop.
    let ghost vv = keyed_view(v@);
    let n = v.len();
    let mut rev: Vec<KeyedPath> = Vec::new();
    while v.len() > 0
        invariant
            v@.len() + rev@.len() == n,
            all_wf(v@),
            all_wf(rev@),
            keyed_view(v@) == vv.take(v@.len() as int),
            n == vv.len(),
            forall|i: int| 0 <= i < rev@.len() ==> #[trigger] rev@[i].path@ == vv[n - 1 - i],
        decreases v@.len(),
    {
        let ghost old_v = v@;
        let ghost old_rev = rev@;
        let x = v.pop().unwrap();
        proof {
            assert(keyed_view(old_v)[v@.len() as int] == x.path@);
            assert(vv.take(v@.len() as int + 1)[v@.len() as int] == x.path@);
            assert(vv[v@.len() as int] == x.path@);
            assert(keyed_view(v@) =~= vv.take(v@.len() as int));
        }
        rev.push(x);
        proof {
            assert forall|i: int| 0 <= i < rev@.len() implies #[trigger] rev@[i].path@ == vv[n - 1 - i] by {
                if i < old_rev.len() {
                    assert(rev@[i] == old_rev[i]);
                    assert(old_rev[i].path@ == vv[n - 1 - i]);
                } else {
                    assert(rev@[i] == x);
                    assert(n - 1 - i == v@.len());
                }
            }
        }
    }
    let mut k: usize = 0;
    proof {
        assert(vv.take(0) =~= Seq::<Seq<char>>::empty());
        assert(keyed_view(out@) =~= sort_paths(vv.take(0)));
    }
    while rev.len() > 0
        invariant
            k + rev@.len() == n,
            n == vv.len(),
            all_wf(rev@),
            all_wf(out@),
            forall|i: int| 0 <= i < rev@.len() ==> #[trigger] rev@[i].path@ == vv[n - 1 - i],
            keyed_view(out@) == sort_paths(vv.take(k as int)),
        decreases rev@.len(),
    {
        let ghost r0 = rev@;
        let x = rev.pop().unwrap();
        proof {
            assert(rev@ =~= r0.drop_last());
            assert(x == r0[r0.len() - 1]);
            assert forall|i: int| 0 <= i < rev@.len() implies #[trigger] rev@[i].path@ == vv[n - 1 - i] by {
                assert(rev@[i] == r0[i]);
            }
            assert forall|i: int| 0 <= i < rev@.len() implies (#[trigger] rev@[i]).wf() by {
                assert(rev@[i] == r0[i]);
            }
            assert(x.path@ == vv[k as int]);
            assert(vv.take(k as int + 1).drop_last() =~= vv.take(k as int));
            assert(vv.take(k as int + 1).last() == vv[k as int]);
        }
        let pos = path_insert_pos_exec(&out, &x);
        let ghost ov = keyed_view(out@);
        let ghost o = out@;
        out.insert(pos, x);
        proof {
            assert(out@ == o.insert(pos as int, x));
            assert(keyed_view(out@) =~= ov.insert(pos as int, vv[k as int]));
            assert forall|i: int| 0 <= i < out@.len() implies (#[trigger] out@[i]).wf() by {
                if i < pos {
                    assert(out@[i] == o[i]);
                } else if i > pos {
                    assert(out@[i] == o[i - 1]);
                }
            }
        }
        k = k + 1;
    }
    proof {
        assert(vv.take(n as int) =~= vv);
    }
    out
}


// ---------------------------------------------------------------------------------------
// The order of paths.
proof fn lemma_comp_lt_order(a: Seq<char>, b: Seq<char>, c: Seq<char>)
    ensures
        !comp_lt(a, a),
        comp_lt(a, b) && comp_lt(b, c) ==> comp_lt(a, c),
        a != b ==> comp_lt(a, b) || comp_lt(b, a),
{
    crate::text::lemma_chars_lt_order();
    if a != b && comp_rank(a) == comp_rank(b) && comp_rank(a) < 3 {
        assert(a == b);
    }
}

proof fn lemma_comps_lt_irreflexive(a: Seq<Seq<char>>)
    ensures
        !comps_lt(a, a),
    decreases a.len(),
{
    if a.len() > 0 {
        lemma_comps_lt_irreflexive(a.drop_first());
    }
}

proof fn lemma_comps_lt_transitive(a: Seq<Seq<char>>, b: Seq<Seq<char>>, c: Seq<Seq<char>>)
    requires
        comps_lt(a, b),
        comps_lt(b, c),
    ensures
        comps_lt(a, c),
    decreases a.len(),
{
    if a.len() > 0 && b.len() > 0 && c.len() > 0 {
        lemma_comp_lt_order(a[0], b[0], c[0]);
        lemma_comp_lt_order(a[0], c[0], b[0]);
        lemma_comp_lt_order(b[0], c[0], a[0]);
        lemma_comp_lt_order(c[0], a[0], b[0]);
        lemma_comp_lt_order(b[0], a[0], c[0]);
        if a[0] == b[0] && b[0] == c[0] {
            lemma_comps_lt_transitive(a.drop_first(), b.drop_first(), c.drop_first());
        }
    }
}

proof fn lemma_comps_lt_total(a: Seq<Seq<char>>, b: Seq<Seq<char>>)
    requires
        a != b,
    ensures
        comps_lt(a, b) || comps_lt(b, a),
    decreases a.len(),
{
    if a.len() > 0 && b.len() > 0 {
        lemma_comp_lt_order(a[0], b[0], a[0]);
        if a[0] == b[0] {
            if a.drop_first() == b.drop_first() {
                assert(a =~= seq![a[0]] + a.drop_first());
                assert(b =~= seq![b[0]] + b.drop_first());
            }
            lemma_comps_lt_total(a.drop_first(), b.drop_first());
        }
    } else if a.len() == 0 && b.len() == 0 {
        assert(a =~= b);
    }
}

/// `Path` order is a strict weak order: irreflexive, transitive, and paths that neither
/// orders before the other are the same path.
pub proof fn lemma_path_lt_order()
    ensures
        crate::order::strict_weak(|a: Seq<char>, b: Seq<char>| path_lt(a, b)),
        forall|a: Seq<char>, b: Seq<char>|
            !path_lt(a, b) && !path_lt(b, a) ==> #[trigger] same_path(a, b),
{
    let lt = |a: Seq<char>, b: Seq<char>| path_lt(a, b);
    assert forall|a: Seq<char>| !#[trigger] lt(a, a) by {
        lemma_comps_lt_irreflexive(components(a));
    }
    assert forall|a: Seq<char>, b: Seq<char>, c: Seq<char>|
        #[trigger] lt(a, b) && #[trigger] lt(b, c) implies lt(a, c) by {
        lemma_comps_lt_transitive(components(a), components(b), components(c));
    }
    assert forall|a: Seq<char>, b: Seq<char>| !path_lt(a, b) && !path_lt(b, a) implies #[trigger] same_path(a, b) by {
        if components(a) != components(b) {
            lemma_comps_lt_total(components(a), components(b));
        }
    }
    assert forall|a: Seq<char>, b: Seq<char>, c: Seq<char>|
        !lt(a, b) && !lt(b, a) implies (#[trigger] lt(a, c) == #[trigger] lt(b, c) && lt(c, a) == lt(
        c,
        b,
    )) by {
        if components(a) != components(b) {
            lemma_comps_lt_total(components(a), components(b));
        }
    }
}

proof fn lemma_sort_paths_is_ins_sort(s: Seq<Seq<char>>)
    ensures
        sort_paths(s) == crate::order::ins_sort(|a: Seq<char>, b: Seq<char>| path_lt(a, b), s),
    decreases s.len(),
{
    let lt = |a: Seq<char>, b: Seq<char>| path_lt(a, b);
    if s.len() > 0 {
        lemma_sort_paths_is_ins_sort(s.drop_last());
        lemma_path_insert_pos_is_ins_pos(sort_paths(s.drop_last()), s.last());
    }
}

proof fn lemma_path_insert_pos_is_ins_pos(s: Seq<Seq<char>>, x: Seq<char>)
    ensures
        path_insert_pos(s, x) == crate::order::ins_pos(
            |a: Seq<char>, b: Seq<char>| path_lt(a, b),
            s,
            x,
        ),
    decreases s.len(),
{
    if s.len() > 0 {
        lemma_path_insert_pos_is_ins_pos(s.drop_first(), x);
    }
}

/// Law: sorting paths gives them in `Path` order (no path orders before an earlier one),
/// and gives each of the paths, as often as it was given.
pub proof fn law_sort_paths(s: Seq<Seq<char>>)
    ensures
        forall|i: int, j: int|
            0 <= i < j < sort_paths(s).len() ==> !path_lt(
                #[trigger] sort_paths(s)[j],
                #[trigger] sort_paths(s)[i],
            ),
        sort_paths(s).to_multiset() == s.to_multiset(),
{
    let lt = |a: Seq<char>, b: Seq<char>| path_lt(a, b);
    lemma_path_lt_order();
    lemma_sort_paths_is_ins_sort(s);
    crate::order::law_ins_sort_sorted(lt, s);
    crate::order::law_ins_sort_permutes(lt, s);
    let r = sort_paths(s);
    assert forall|i: int, j: int| 0 <= i < j < r.len() implies !path_lt(#[trigger] r[j], #[trigger] r[i]) by {
        assert(!lt(r[j], r[i]));
    }
}

} // verus!
