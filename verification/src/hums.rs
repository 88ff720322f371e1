//! The learned-hums file: one hum per line, `name|move move ...`.

use vstd::prelude::*;
use crate::binary32::{Binary32, POS_INF_BITS, lt_bits, is_nan_bits};

verus! {

/// The characters with the Unicode `White_Space` property.
pub open spec fn is_white_space(c: char) -> bool {
    let u = c as u32;
    (0x09 <= u <= 0x0d) || u == 0x20 || u == 0x85 || u == 0xa0 || u == 0x1680 || (0x2000 <= u
        <= 0x200a) || u == 0x2028 || u == 0x2029 || u == 0x202f || u == 0x205f || u == 0x3000
}

/// The maximal runs of non-white-space characters of `s`, in order.
pub open spec fn words(s: Seq<char>) -> Seq<Seq<char>>
    decreases s.len(),
{
    if s.len() == 0 {
        Seq::empty()
    } else {
        let prev = words(s.drop_last());
        let c = s.last();
        if is_white_space(c) {
            prev
        } else if s.len() >= 2 && !is_white_space(s[s.len() - 2]) {
            prev.update(prev.len() - 1, prev.last().push(c))
        } else {
            prev.push(seq![c])
        }
    }
}

/// Position of the first `c` in `s`.
pub open spec fn first_index(s: Seq<char>, c: char, i: int) -> Option<int>
    decreases s.len() - i,
{
    if i < 0 || i >= s.len() {
        None
    } else if s[i] == c {
        Some(i)
    } else {
        first_index(s, c, i + 1)
    }
}

/// A line splits at its first `|` into the hum's name and the words of its
/// moves; a line without `|` holds no hum.
pub open spec fn hum_line_spec(line: Seq<char>) -> Option<(Seq<char>, Seq<Seq<char>>)> {
    match first_index(line, '|', 0) {
        Some(p) => Some((line.take(p), words(line.skip(p + 1)))),
        None => None,
    }
}

/// Whether `c` has the Unicode `White_Space` property.
pub fn white_space(c: char) -> (r: bool)
    ensures
        r == is_white_space(c),
{
    let u = c as u32;
    (0x09 <= u && u <= 0x0d) || u == 0x20 || u == 0x85 || u == 0xa0 || u == 0x1680 || (0x2000 <= u
        && u <= 0x200a) || u == 0x2028 || u == 0x2029 || u == 0x202f || u == 0x205f || u == 0x3000
}

/// The white-space separated words of `s`.
pub fn split_words(s: &[char]) -> (r: Vec<Vec<char>>)
    ensures
        r@.map_values(|w: Vec<char>| w@) == words(s@),
{
    let mut out: Vec<Vec<char>> = Vec::new();
    let mut word: Vec<char> = Vec::new();
    for i in 0..s.len()
        invariant
            word@.len() > 0 ==> i > 0 && !is_white_space(s@[i - 1]),
            i > 0 && !is_white_space(s@[i - 1]) ==> word@.len() > 0,
            word@.len() > 0 ==> out@.map_values(|w: Vec<char>| w@).push(word@) == words(
                s@.subrange(0, i as int),
            ),
            word@.len() == 0 ==> out@.map_values(|w: Vec<char>| w@) == words(
                s@.subrange(0, i as int),
            ),
    {
        let ghost pre = s@.subrange(0, i as int);
        let ghost post = s@.subrange(0, i + 1);
        proof {
            assert(post.drop_last() =~= pre);
            assert(post.last() == s@[i as int]);
            if i > 0 {
                assert(post[post.len() - 2] == s@[i - 1]);
            }
        }
        let c = s[i];
        if white_space(c) {
            if word.len() > 0 {
                let ghost before = out@;
                let ghost w = word@;
                out.push(word);
                word = Vec::new();
                assert(out@.map_values(|w: Vec<char>| w@) =~= before.map_values(|w: Vec<char>| w@).push(
                    w,
                ));
            }
        } else {
            let ghost old_word = word@;
            word.push(c);
            proof {
                let m = out@.map_values(|w: Vec<char>| w@);
                if old_word.len() > 0 {
                    assert(m.push(word@) =~= m.push(old_word).update(m.len() as int, old_word.push(c)));
                } else {
                    assert(old_word =~= Seq::<char>::empty());
                    assert(word@ =~= seq![c]);
                }
            }
        }
    }
    assert(s@.subrange(0, s@.len() as int) =~= s@);
    if word.len() > 0 {
        out.push(word);
    }
    out
}

/// Splits one line of the hums file into the hum's name and the words of
/// its moves; `None` when the line has no `|`.
pub fn parse_hum_line(line: &[char]) -> (r: Option<(Vec<char>, Vec<Vec<char>>)>)
    ensures
        match hum_line_spec(line@) {
            Some((name, ws)) => r matches Some((n, w)) && n@ == name && w@.map_values(
                |x: Vec<char>| x@,
            ) == ws,
            None => r is None,
        },
{
    let n = line.len();
    let mut p: usize = 0;
    while p < n
        invariant
            n == line@.len(),
            p <= n,
            first_index(line@, '|', 0) == first_index(line@, '|', p as int),
        decreases n - p,
    {
        if line[p] == '|' {
            let mut name: Vec<char> = Vec::new();
            for k in 0..p
                invariant
                    p < n,
                    n == line@.len(),
                    name@ == line@.take(k as int),
            {
                assert(line@.take(k + 1) =~= line@.take(k as int).push(line@[k as int]));
                name.push(line[k]);
            }
            let mut rest: Vec<char> = Vec::new();
            for k in p + 1..n
                invariant
                    p < n,
                    n == line@.len(),
                    rest@ == line@.subrange(p + 1, k as int),
            {
                assert(line@.subrange(p + 1, k + 1) =~= line@.subrange(p + 1, k as int).push(
                    line@[k as int],
                ));
                rest.push(line[k]);
            }
            assert(rest@ =~= line@.skip(p + 1));
            let ws = split_words(rest.as_slice());
            return Some((name, ws));
        }
        p = p + 1;
    }
    None
}

/// `a` comes before `b` in the lexicographic order of code points, the
/// order in which a `BTreeMap` keyed by `String` walks its keys (UTF-8
/// keeps the order of code points).
pub open spec fn text_lt(a: Seq<char>, b: Seq<char>) -> bool
    decreases a.len(),
{
    if b.len() == 0 {
        false
    } else if a.len() == 0 {
        true
    } else if a[0] != b[0] {
        (a[0] as u32) < (b[0] as u32)
    } else {
        text_lt(a.drop_first(), b.drop_first())
    }
}

proof fn lemma_text_lt_irreflexive(a: Seq<char>)
    ensures
        !text_lt(a, a),
    decreases a.len(),
{
    if a.len() > 0 {
        lemma_text_lt_irreflexive(a.drop_first());
    }
}

proof fn lemma_text_lt_transitive(a: Seq<char>, b: Seq<char>, c: Seq<char>)
    requires
        text_lt(a, b),
        text_lt(b, c),
    ensures
        text_lt(a, c),
    decreases a.len(),
{
    if a.len() > 0 && a[0] == b[0] && b[0] == c[0] {
        lemma_text_lt_transitive(a.drop_first(), b.drop_first(), c.drop_first());
    }
}

proof fn lemma_text_lt_total(a: Seq<char>, b: Seq<char>)
    ensures
        a == b || text_lt(a, b) || text_lt(b, a),
    decreases a.len(),
{
    if a.len() > 0 && b.len() > 0 {
        vstd::utf8::char_u32_cast(a[0], a[0] as u32);
        vstd::utf8::char_u32_cast(b[0], b[0] as u32);
    }
    if a.len() > 0 && b.len() > 0 && a[0] == b[0] {
        lemma_text_lt_total(a.drop_first(), b.drop_first());
        if a.drop_first() == b.drop_first() {
            assert(a =~= b) by {
                assert forall|i: int| 0 <= i < a.len() implies a[i] == b[i] by {
                    if i > 0 {
                        assert(a[i] == a.drop_first()[i - 1]);
                        assert(b[i] == b.drop_first()[i - 1]);
                    }
                }
            }
        }
    } else if a.len() == 0 && b.len() == 0 {
        assert(a =~= b);
    }
}

/// Whether `a` comes before `b` in the lexicographic order of code points.
pub fn text_less(a: &[char], b: &[char]) -> (r: bool)
    ensures
        r == text_lt(a@, b@),
{
    let mut i: usize = 0;
    assert(a@.skip(0) =~= a@ && b@.skip(0) =~= b@);
    while i < a.len() && i < b.len()
        invariant
            i <= a@.len(),
            i <= b@.len(),
            text_lt(a@, b@) == text_lt(a@.skip(i as int), b@.skip(i as int)),
        decreases a@.len() - i,
    {
        assert(a@.skip(i as int)[0] == a@[i as int]);
        assert(b@.skip(i as int)[0] == b@[i as int]);
        if a[i] != b[i] {
            return (a[i] as u32) < (b[i] as u32);
        }
        assert(a@.skip(i as int).drop_first() =~= a@.skip(i + 1));
        assert(b@.skip(i as int).drop_first() =~= b@.skip(i + 1));
        i = i + 1;
    }
    i < b.len()
}

/// Whether `a` and `b` hold the same characters.
pub fn text_equal(a: &[char], b: &[char]) -> (r: bool)
    ensures
        r == (a@ == b@),
{
    if a.len() != b.len() {
        return false;
    }
    for i in 0..a.len()
        invariant
            a@.len() == b@.len(),
            forall|k: int| 0 <= k < i ==> a@[k] == b@[k],
    {
        if a[i] != b[i] {
            return false;
        }
    }
    assert(a@ =~= b@);
    true
}

fn copy_text(v: &Vec<char>) -> (r: Vec<char>)
    ensures
        r@ == v@,
{
    let mut r: Vec<char> = Vec::new();
    for j in 0..v.len()
        invariant
            r@ == v@.take(j as int),
    {
        assert(v@.take(j + 1) =~= v@.take(j as int).push(v@[j as int]));
        r.push(v[j]);
    }
    assert(v@.take(v@.len() as int) =~= v@);
    r
}

/// The characters of each text.
pub open spec fn texts(v: Seq<Vec<char>>) -> Seq<Seq<char>> {
    v.map_values(|w: Vec<char>| w@)
}

/// Strictly increasing in the order of `text_lt`.
pub open spec fn texts_ascending(ts: Seq<Seq<char>>) -> bool {
    forall|i: int, j: int| 0 <= i < j < ts.len() ==> text_lt(#[trigger] ts[i], #[trigger] ts[j])
}

/// `x` is one of the first `k` names.
pub open spec fn named_before(vn: Seq<Seq<char>>, x: Seq<char>, k: int) -> bool {
    exists|j: int| 0 <= j < k && #[trigger] vn[j] == x
}

/// The best score of the hum named `nm` among the first `k` recordings: a
/// scan that starts from infinity and takes each score of that name that is
/// strictly lower by `<` than the one it holds.
pub open spec fn name_best(names: Seq<Seq<char>>, costs: Seq<Binary32>, nm: Seq<char>, k: int) -> Binary32
    decreases k,
{
    if k <= 0 {
        Binary32 { bits: POS_INF_BITS }
    } else {
        let acc = name_best(names, costs, nm, k - 1);
        if names[k - 1] == nm && lt_bits(costs[k - 1].bits, acc.bits) {
            costs[k - 1]
        } else {
            acc
        }
    }
}

proof fn lemma_name_best_absent(names: Seq<Seq<char>>, costs: Seq<Binary32>, nm: Seq<char>, k: int)
    requires
        0 <= k <= names.len(),
        forall|j: int| 0 <= j < k ==> names[j] != nm,
    ensures
        name_best(names, costs, nm, k) == (Binary32 { bits: POS_INF_BITS }),
    decreases k,
{
    if k > 0 {
        lemma_name_best_absent(names, costs, nm, k - 1);
    }
}

/// With no NaN among the scores, the best score of a name is its least
/// score: no score of that name is lower, and it is one of them, or
/// infinity when the name has no score below infinity.
pub proof fn lemma_name_best_least(names: Seq<Seq<char>>, costs: Seq<Binary32>, nm: Seq<char>, k: int)
    requires
        0 <= k <= names.len(),
        names.len() == costs.len(),
        forall|j: int| 0 <= j < k ==> !is_nan_bits(#[trigger] costs[j].bits),
    ensures
        !is_nan_bits(name_best(names, costs, nm, k).bits),
        forall|j: int|
            0 <= j < k && names[j] == nm ==> !lt_bits(#[trigger] costs[j].bits, name_best(names, costs, nm, k).bits),
        name_best(names, costs, nm, k).bits == POS_INF_BITS || exists|j: int|
            0 <= j < k && names[j] == nm && #[trigger] costs[j] == name_best(names, costs, nm, k),
    decreases k,
{
    if k > 0 {
        lemma_name_best_least(names, costs, nm, k - 1);
        let acc = name_best(names, costs, nm, k - 1);
        if names[k - 1] == nm && lt_bits(costs[k - 1].bits, acc.bits) {
            assert(costs[k - 1] == name_best(names, costs, nm, k));
        } else if acc.bits != POS_INF_BITS {
            let j = choose|j: int| 0 <= j < k - 1 && names[j] == nm && #[trigger] costs[j] == acc;
            assert(costs[j] == name_best(names, costs, nm, k));
        }
    }
}

/// For each distinct name among the recordings, its best score: the names
/// in the order of `text_lt`, each once, and beside each the lowest of its
/// scores as a scan from infinity with `<` finds it.
pub fn best_per_name(names: &[Vec<char>], costs: &[Binary32]) -> (r: (Vec<Vec<char>>, Vec<Binary32>))
    requires
        names@.len() == costs@.len(),
    ensures
        r.0@.len() == r.1@.len(),
        texts_ascending(texts(r.0@)),
        forall|i: int| 0 <= i < r.0@.len() ==> texts(names@).contains(#[trigger] texts(r.0@)[i]),
        forall|k: int| 0 <= k < names@.len() ==> texts(r.0@).contains(#[trigger] texts(names@)[k]),
        forall|i: int|
            0 <= i < r.1@.len() ==> #[trigger] r.1@[i] == name_best(
                texts(names@),
                costs@,
                texts(r.0@)[i],
                names@.len() as int,
            ),
{
    let ghost vn = texts(names@);
    let mut out_names: Vec<Vec<char>> = Vec::new();
    let mut out_costs: Vec<Binary32> = Vec::new();
    let infinity = Binary32 { bits: POS_INF_BITS };
    for k in 0..names.len()
        invariant
            vn == texts(names@),
            names@.len() == costs@.len(),
            infinity.bits == POS_INF_BITS,
            out_names@.len() == out_costs@.len(),
            texts_ascending(texts(out_names@)),
            forall|i: int|
                0 <= i < out_names@.len() ==> named_before(vn, #[trigger] texts(out_names@)[i], k as int),
            forall|j: int| 0 <= j < k ==> texts(out_names@).contains(#[trigger] vn[j]),
            forall|i: int|
                0 <= i < out_costs@.len() ==> #[trigger] out_costs@[i] == name_best(
                    vn,
                    costs@,
                    texts(out_names@)[i],
                    k as int,
                ),
    {
        let ghost vo = texts(out_names@);
        let ghost nm = vn[k as int];
        assert(nm == names@[k as int]@);
        let mut p: usize = 0;
        while p < out_names.len() && text_less(out_names[p].as_slice(), names[k].as_slice())
            invariant
                vo == texts(out_names@),
                k < names@.len(),
                nm == names@[k as int]@,
                p <= out_names@.len(),
                forall|i: int| 0 <= i < p ==> text_lt(#[trigger] vo[i], nm),
            decreases out_names@.len() - p,
        {
            p = p + 1;
        }
        let found = p < out_names.len() && text_equal(out_names[p].as_slice(), names[k].as_slice());
        if found {
            let c = costs[k];
            if c.lt(out_costs[p]) {
                out_costs.set(p, c);
            }
            proof {
                assert forall|i: int| 0 <= i < out_costs@.len() implies #[trigger] out_costs@[i]
                    == name_best(vn, costs@, texts(out_names@)[i], k + 1) by {
                    if i != p {
                        if vo[i] == nm {
                            lemma_text_lt_irreflexive(nm);
                            assert(vo[p as int] == nm);
                            if i < p {
                                assert(text_lt(vo[i], vo[p as int]));
                            } else {
                                assert(text_lt(vo[p as int], vo[i]));
                            }
                        }
                    }
                }
                assert forall|i: int|
                    0 <= i < out_names@.len() implies named_before(vn, #[trigger] texts(out_names@)[i], k + 1) by {
                    let j = choose|j: int| 0 <= j < k && #[trigger] vn[j] == vo[i];
                }
            }
        } else {
            proof {
                if p < out_names@.len() {
                    lemma_text_lt_total(vo[p as int], nm);
                }
                assert forall|j: int| 0 <= j < k implies vn[j] != nm by {
                    assert(vo.contains(vn[j]));
                    let i = choose|i: int| 0 <= i < vo.len() && vo[i] == vn[j];
                    if i < p {
                        lemma_text_lt_irreflexive(nm);
                    } else if i == p {
                    } else {
                        lemma_text_lt_transitive(nm, vo[p as int], vo[i]);
                        lemma_text_lt_irreflexive(nm);
                    }
                }
                lemma_name_best_absent(vn, costs@, nm, k as int);
            }
            let c = costs[k];
            let first = if c.lt(infinity) {
                c
            } else {
                infinity
            };
            let copy = copy_text(&names[k]);
            let ghost oc = out_costs@;
            out_names.insert(p, copy);
            out_costs.insert(p, first);
            proof {
                let vnew = texts(out_names@);
                assert(vnew =~= vo.insert(p as int, nm));
                assert forall|i: int, j: int| 0 <= i < j < vnew.len() implies text_lt(
                    #[trigger] vnew[i],
                    #[trigger] vnew[j],
                ) by {
                    if j < p {
                        assert(vnew[i] == vo[i] && vnew[j] == vo[j]);
                    } else if j == p {
                        assert(vnew[i] == vo[i] && vnew[j] == nm);
                    } else if i < p {
                        assert(vnew[i] == vo[i] && vnew[j] == vo[j - 1]);
                    } else if i == p {
                        assert(vnew[i] == nm && vnew[j] == vo[j - 1]);
                        if j - 1 > p {
                            lemma_text_lt_transitive(nm, vo[p as int], vo[j - 1]);
                        }
                    } else {
                        assert(vnew[i] == vo[i - 1] && vnew[j] == vo[j - 1]);
                    }
                }
                assert forall|i: int| 0 <= i < out_costs@.len() implies #[trigger] out_costs@[i]
                    == name_best(vn, costs@, texts(out_names@)[i], k + 1) by {
                    if i < p {
                        assert(out_costs@[i] == oc[i] && vnew[i] == vo[i]);
                        if vo[i] == nm {
                            lemma_text_lt_irreflexive(nm);
                        }
                    } else if i == p {
                        assert(vnew[i] == nm);
                    } else {
                        assert(out_costs@[i] == oc[i - 1] && vnew[i] == vo[i - 1]);
                        if vo[i - 1] == nm {
                            lemma_text_lt_transitive(nm, vo[p as int], vo[i - 1]);
                            lemma_text_lt_irreflexive(nm);
                        }
                    }
                }
                assert forall|i: int|
                    0 <= i < out_names@.len() implies named_before(vn, #[trigger] texts(out_names@)[i], k + 1) by {
                    if i < p {
                        let j = choose|j: int| 0 <= j < k && #[trigger] vn[j] == vo[i];
                        assert(vnew[i] == vo[i]);
                    } else if i == p {
                        assert(vn[k as int] == vnew[i]);
                    } else {
                        let j = choose|j: int| 0 <= j < k && #[trigger] vn[j] == vo[i - 1];
                        assert(vnew[i] == vo[i - 1]);
                    }
                }
                assert forall|j: int| 0 <= j < k + 1 implies texts(out_names@).contains(#[trigger] vn[j]) by {
                    if j < k {
                        assert(vo.contains(vn[j]));
                        let i = choose|i: int| 0 <= i < vo.len() && vo[i] == vn[j];
                        if i < p {
                            assert(vnew[i] == vo[i]);
                        } else {
                            assert(vnew[i + 1] == vo[i]);
                        }
                    } else {
                        assert(vnew[p as int] == vn[j]);
                    }
                }
            }
        }
    }
    (out_names, out_costs)
}

} // verus!
