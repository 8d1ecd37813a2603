//! File names: which files are images, the label file that belongs to an
//! image, and the order of the image list.
use vstd::prelude::*;

verus! {

/// The extension of an image file that the list takes in.
pub open spec fn is_image_name(s: Seq<char>) -> bool {
    s.len() > 4 && s[s.len() - 4] == '.' && ((s[s.len() - 3] == 'j' && s[s.len() - 2] == 'p'
        && s[s.len() - 1] == 'g') || (s[s.len() - 3] == 'p' && s[s.len() - 2] == 'n' && s[s.len()
        - 1] == 'g'))
}

/// Index of the last `.` in `s`, or -1.
pub open spec fn last_dot(s: Seq<char>) -> int
    decreases s.len(),
{
    if s.len() == 0 {
        -1
    } else if s.last() == '.' {
        s.len() - 1
    } else {
        last_dot(s.drop_last())
    }
}

/// The name without its extension. A name whose only dot leads it, or that
/// has none, is its own stem.
pub open spec fn stem_of(s: Seq<char>) -> Seq<char> {
    if last_dot(s) <= 0 {
        s
    } else {
        s.subrange(0, last_dot(s))
    }
}

/// The label file of an image: the image's stem with `.txt` after it.
pub open spec fn label_name_of(s: Seq<char>) -> Seq<char> {
    stem_of(s) + seq!['.', 't', 'x', 't']
}

/// Lexicographic order by code point, which is the order of `str`.
pub open spec fn name_lt(a: Seq<char>, b: Seq<char>) -> bool
    decreases a.len(),
{
    if b.len() == 0 {
        false
    } else if a.len() == 0 {
        true
    } else if a[0] != b[0] {
        (a[0] as int) < (b[0] as int)
    } else {
        name_lt(a.drop_first(), b.drop_first())
    }
}

pub open spec fn strictly_sorted(s: Seq<Seq<char>>) -> bool {
    forall|i: int, j: int| 0 <= i < j < s.len() ==> name_lt(#[trigger] s[i], #[trigger] s[j])
}

pub proof fn lemma_lt_irreflexive(a: Seq<char>)
    ensures
        !name_lt(a, a),
    decreases a.len(),
{
    if a.len() > 0 {
        lemma_lt_irreflexive(a.drop_first());
    }
}

proof fn lemma_lt_transitive(a: Seq<char>, b: Seq<char>, c: Seq<char>)
    requires
        name_lt(a, b),
        name_lt(b, c),
    ensures
        name_lt(a, c),
    decreases a.len(),
{
    if a.len() > 0 && b.len() > 0 && c.len() > 0 {
        if a[0] == b[0] && b[0] == c[0] {
            lemma_lt_transitive(a.drop_first(), b.drop_first(), c.drop_first());
        }
    }
}

proof fn lemma_lt_total(a: Seq<char>, b: Seq<char>)
    requires
        a != b,
    ensures
        name_lt(a, b) || name_lt(b, a),
    decreases a.len(),
{
    if a.len() > 0 && b.len() > 0 {
        if a[0] == b[0] {
            if a.drop_first() == b.drop_first() {
                assert(a =~= seq![a[0]] + a.drop_first());
                assert(b =~= seq![b[0]] + b.drop_first());
            }
            lemma_lt_total(a.drop_first(), b.drop_first());
        } else {
            assert((a[0] as int) != (b[0] as int));
        }
    } else if a.len() == 0 && b.len() == 0 {
        assert(a =~= b);
    }
}

/// Whether `name` ends in `.jpg` or `.png` after at least one character.
pub fn is_image_file(name: &str) -> (r: bool)
    ensures
        r == is_image_name(name@),
{
    let n = name.unicode_len();
    if n <= 4 {
        return false;
    }
    let d = name.get_char(n - 4);
    let a = name.get_char(n - 3);
    let b = name.get_char(n - 2);
    let c = name.get_char(n - 1);
    d == '.' && ((a == 'j' && b == 'p' && c == 'g') || (a == 'p' && b == 'n' && c == 'g'))
}

/// The stem of a file name: what comes before its last dot, unless that
/// dot is the first character or there is none.
pub fn file_stem(name: &str) -> (r: String)
    ensures
        r@ == stem_of(name@),
{
    let n = name.unicode_len();
    let mut dot: Option<usize> = None;
    let mut i: usize = 0;
    while i < n
        invariant
            n == name@.len(),
            i <= n,
            match dot {
                Some(d) => d < i && last_dot(name@.subrange(0, i as int)) == d,
                None => last_dot(name@.subrange(0, i as int)) == -1,
            },
        decreases n - i,
    {
        assert(name@.subrange(0, i + 1).drop_last() =~= name@.subrange(0, i as int));
        if name.get_char(i) == '.' {
            dot = Some(i);
        }
        i = i + 1;
    }
    assert(name@.subrange(0, n as int) =~= name@);
    match dot {
        Some(d) => {
            if d == 0 {
                String::from_str(name)
            } else {
                String::from_str(name.substring_char(0, d))
            }
        },
        None => String::from_str(name),
    }
}

/// The name of the label file that belongs to the image file `name`.
pub fn label_file_name(name: &str) -> (r: String)
    ensures
        r@ == label_name_of(name@),
{
    let stem = file_stem(name);
    let ext = ".txt";
    proof {
        reveal_strlit(".txt");
    }
    stem.concat(ext)
}

/// Whether `a` comes strictly before `b`.
pub fn name_precedes(a: &str, b: &str) -> (r: bool)
    ensures
        r == name_lt(a@, b@),
{
    let na = a.unicode_len();
    let nb = b.unicode_len();
    let mut i: usize = 0;
    assert(a@.skip(0) =~= a@);
    assert(b@.skip(0) =~= b@);
    while i < na && i < nb
        invariant
            na == a@.len(),
            nb == b@.len(),
            i <= na,
            i <= nb,
            name_lt(a@, b@) == name_lt(a@.skip(i as int), b@.skip(i as int)),
        decreases na - i,
    {
        let ca = a.get_char(i);
        let cb = b.get_char(i);
        if ca != cb {
            return (ca as u32) < (cb as u32);
        }
        assert(a@.skip(i + 1) =~= a@.skip(i as int).drop_first());
        assert(b@.skip(i + 1) =~= b@.skip(i as int).drop_first());
        i = i + 1;
    }
    i < nb
}

/// Puts `x` into its place in the strictly ascending `v`, unless it is
/// there already.
fn insert_sorted(v: &mut Vec<String>, x: String)
    requires
        strictly_sorted(old(v).deep_view()),
    ensures
        strictly_sorted(final(v).deep_view()),
        forall|s: Seq<char>| #[trigger]
            final(v).deep_view().contains(s) <==> (old(v).deep_view().contains(s) || s == x@),
{
    let ghost old_v = v.deep_view();
    let mut j: usize = 0;
    loop
        invariant
            j <= v@.len(),
            v.deep_view() == old_v,
            forall|k: int| 0 <= k < j ==> name_lt(#[trigger] old_v[k], x@),
        ensures
            j <= v@.len(),
            v.deep_view() == old_v,
            forall|k: int| 0 <= k < j ==> name_lt(#[trigger] old_v[k], x@),
            j < v@.len() ==> !name_lt(old_v[j as int], x@),
        decreases v@.len() - j,
    {
        if j >= v.len() {
            break;
        }
        if !name_precedes(v[j].as_str(), x.as_str()) {
            break;
        }
        j = j + 1;
    }
    if j < v.len() && v[j] == x {
        assert(old_v[j as int] == x@);
        assert forall|s: Seq<char>| #[trigger] v.deep_view().contains(s) <==> (old_v.contains(s)
            || s == x@) by {
            if s == x@ {
                assert(old_v[j as int] == s);
            }
        }
        return;
    }
    proof {
        if j < old_v.len() {
            assert(old_v[j as int] != x@);
            assert(!name_lt(old_v[j as int], x@));
            lemma_lt_total(old_v[j as int], x@);
        }
    }
    let ghost xv = x@;
    v.insert(j, x);
    let ghost new_v = v.deep_view();
    assert(new_v =~= old_v.insert(j as int, xv));
    assert forall|a: int, b: int| 0 <= a < b < new_v.len() implies name_lt(
        #[trigger] new_v[a],
        #[trigger] new_v[b],
    ) by {
        if b < j {
        } else if b == j {
        } else if a < j {
            // a before x, b after x
            assert(name_lt(old_v[a], xv));
            assert(name_lt(xv, old_v[j as int]));
            if b - 1 > j {
                lemma_lt_transitive(xv, old_v[j as int], old_v[b - 1]);
            }
            lemma_lt_transitive(old_v[a], xv, old_v[b - 1]);
        } else if a == j {
            if b - 1 > j {
                lemma_lt_transitive(xv, old_v[j as int], old_v[b - 1]);
            }
        } else {
        }
    }
    assert forall|s: Seq<char>| #[trigger] new_v.contains(s) <==> (old_v.contains(s) || s
        == xv) by {
        if old_v.contains(s) {
            let k = choose|k: int| 0 <= k < old_v.len() && old_v[k] == s;
            if k < j {
                assert(new_v[k] == s);
            } else {
                assert(new_v[k + 1] == s);
            }
        }
        if s == xv {
            assert(new_v[j as int] == s);
        }
        if new_v.contains(s) {
            let k = choose|k: int| 0 <= k < new_v.len() && new_v[k] == s;
            if k < j {
                assert(old_v[k] == s);
            } else if k > j {
                assert(old_v[k - 1] == s);
            }
        }
    }
}

/// The image list of a directory listing: the image files among `names`,
/// each once, in ascending order.
pub fn image_file_list(names: &Vec<String>) -> (r: Vec<String>)
    ensures
        strictly_sorted(r.deep_view()),
        forall|s: Seq<char>| #[trigger]
            r.deep_view().contains(s) <==> (names.deep_view().contains(s) && is_image_name(s)),
{
    let mut out: Vec<String> = Vec::new();
    let mut i: usize = 0;
    while i < names.len()
        invariant
            i <= names@.len(),
            strictly_sorted(out.deep_view()),
            forall|s: Seq<char>| #[trigger]
                out.deep_view().contains(s) <==> (names.deep_view().subrange(0, i as int).contains(
                    s,
                ) && is_image_name(s)),
        decreases names@.len() - i,
    {
        let ghost pre = names.deep_view().subrange(0, i as int);
        let ghost post = names.deep_view().subrange(0, i + 1);
        assert(post =~= pre.push(names.deep_view()[i as int]));
        if is_image_file(names[i].as_str()) {
            insert_sorted(&mut out, names[i].clone());
        }
        assert forall|s: Seq<char>| #[trigger] post.contains(s) <==> (pre.contains(s) || s
            == names.deep_view()[i as int]) by {
            if post.contains(s) {
                let k = choose|k: int| 0 <= k < post.len() && post[k] == s;
                if k < i {
                    assert(pre[k] == s);
                }
            }
            if pre.contains(s) {
                let k = choose|k: int| 0 <= k < pre.len() && pre[k] == s;
                assert(post[k] == s);
            }
            if s == names.deep_view()[i as int] {
                assert(post[i as int] == s);
            }
        }
        i = i + 1;
    }
    assert(names.deep_view().subrange(0, i as int) =~= names.deep_view());
    out
}

/// Index of the first occurrence of `k` in `s`, or -1.
pub open spec fn first_index<A>(s: Seq<A>, k: A) -> int
    decreases s.len(),
{
    if s.len() == 0 {
        -1
    } else if s[0] == k {
        0
    } else if first_index(s.drop_first(), k) < 0 {
        -1
    } else {
        first_index(s.drop_first(), k) + 1
    }
}

/// What `first_index` is: the least index holding `k`, or -1 when there is
/// none.
pub proof fn lemma_first_index<A>(s: Seq<A>, k: A)
    ensures
        -1 <= first_index(s, k) < s.len(),
        first_index(s, k) >= 0 ==> s[first_index(s, k)] == k,
        forall|j: int| 0 <= j < first_index(s, k) ==> s[j] != k,
        first_index(s, k) < 0 <==> !s.contains(k),
    decreases s.len(),
{
    if s.len() > 0 {
        let t = s.drop_first();
        lemma_first_index(t, k);
        if s[0] != k {
            assert forall|j: int| 0 <= j < first_index(s, k) implies s[j] != k by {
                if j > 0 {
                    assert(s[j] == t[j - 1]);
                }
            }
            if s.contains(k) {
                let j = choose|j: int| 0 <= j < s.len() && s[j] == k;
                assert(t[j - 1] == k);
            }
            if t.contains(k) {
                let j = choose|j: int| 0 <= j < t.len() && t[j] == k;
                assert(s[j + 1] == k);
            }
        } else {
            assert(s.contains(k));
        }
    }
}

/// The position of `name` in `files`: its first occurrence.
pub fn position_of(files: &Vec<String>, name: &str) -> (r: Option<usize>)
    ensures
        match r {
            Some(i) => first_index(files.deep_view(), name@) == i,
            None => first_index(files.deep_view(), name@) == -1,
        },
{
    proof {
        lemma_first_index(files.deep_view(), name@);
    }
    let key = String::from_str(name);
    let mut i: usize = 0;
    while i < files.len()
        invariant
            i <= files@.len(),
            key@ == name@,
            forall|j: int| 0 <= j < i ==> files.deep_view()[j] != name@,
            -1 <= first_index(files.deep_view(), name@) < files@.len(),
            first_index(files.deep_view(), name@) >= 0 ==> files.deep_view()[first_index(
                files.deep_view(),
                name@,
            )] == name@,
            forall|j: int|
                0 <= j < first_index(files.deep_view(), name@) ==> files.deep_view()[j]
                    != name@,
            first_index(files.deep_view(), name@) < 0 <==> !files.deep_view().contains(name@),
        decreases files@.len() - i,
    {
        if files[i] == key {
            assert(files.deep_view()[i as int] == name@);
            assert(files.deep_view().contains(name@));
            return Some(i);
        }
        i = i + 1;
    }
    None
}

} // verus!
