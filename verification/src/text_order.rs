//! The order of texts (that of their UTF-8 bytes, as std's `String`
//! orders them), and sorting a list of distinct texts.
use vstd::prelude::*;

use crate::ifeval::{less_text, text_less};
use crate::tags::strings_view;

verus! {

/// Each text comes before every later one.
pub open spec fn sorted_texts(q: Seq<Seq<char>>) -> bool {
    forall|i: int, j: int| 0 <= i < j < q.len() ==> text_less(#[trigger] q[i], #[trigger] q[j])
}

/// The texts of `s` in order, each once.
pub open spec fn sorted_set(s: Set<Seq<char>>) -> Seq<Seq<char>> {
    choose|q: Seq<Seq<char>>| q.to_set() == s && sorted_texts(q)
}

pub proof fn lemma_text_less_irreflexive(a: Seq<char>)
    ensures
        !text_less(a, a),
    decreases a.len(),
{
    if a.len() > 0 {
        lemma_text_less_irreflexive(a.drop_first());
    }
}

pub proof fn lemma_text_less_total(a: Seq<char>, b: Seq<char>)
    requires
        a != b,
    ensures
        text_less(a, b) || text_less(b, a),
    decreases a.len(),
{
    if a.len() > 0 && b.len() > 0 && a[0] == b[0] {
        if a.drop_first() == b.drop_first() {
            assert(a =~= seq![a[0]] + a.drop_first());
            assert(b =~= seq![b[0]] + b.drop_first());
            assert(a == b);
        } else {
            lemma_text_less_total(a.drop_first(), b.drop_first());
        }
    } else if a.len() == 0 && b.len() == 0 {
        assert(a =~= b);
    } else if a.len() > 0 && b.len() > 0 {
        vstd::utf8::char_u32_cast(a[0], a[0] as u32);
        vstd::utf8::char_u32_cast(b[0], b[0] as u32);
        assert(a[0] as u32 != b[0] as u32);
    }
}

pub proof fn lemma_text_less_transitive(a: Seq<char>, b: Seq<char>, c: Seq<char>)
    requires
        text_less(a, b),
        text_less(b, c),
    ensures
        text_less(a, c),
    decreases a.len(),
{
    if a.len() > 0 && b.len() > 0 && c.len() > 0 && a[0] == b[0] && b[0] == c[0] {
        lemma_text_less_transitive(a.drop_first(), b.drop_first(), c.drop_first());
    }
}

/// Two sorted lists of the same texts are the same list.
pub proof fn lemma_sorted_unique(q1: Seq<Seq<char>>, q2: Seq<Seq<char>>)
    requires
        sorted_texts(q1),
        sorted_texts(q2),
        q1.to_set() == q2.to_set(),
    ensures
        q1 == q2,
    decreases q1.len(),
{
    if q1.len() == 0 {
        if q2.len() > 0 {
            assert(q2.to_set().contains(q2[0]));
        }
        assert(q1 =~= q2);
    } else if q2.len() == 0 {
        assert(q1.to_set().contains(q1[0]));
    } else {
        assert(q2.to_set().contains(q1[0]));
        assert(q1.to_set().contains(q2[0]));
        let j = choose|j: int| 0 <= j < q2.len() && q2[j] == q1[0];
        let i = choose|i: int| 0 <= i < q1.len() && q1[i] == q2[0];
        if j > 0 {
            assert(text_less(q2[0], q2[j]));
            if i > 0 {
                assert(text_less(q1[0], q1[i]));
                lemma_text_less_transitive(q1[0], q1[i], q1[0]);
                lemma_text_less_irreflexive(q1[0]);
            } else {
                lemma_text_less_irreflexive(q1[0]);
            }
        }
        assert(q1[0] == q2[0]);
        let r1 = q1.drop_first();
        let r2 = q2.drop_first();
        assert forall|t: Seq<char>| r1.to_set().contains(t) implies r2.to_set().contains(t) by {
            let k = choose|k: int| 0 <= k < r1.len() && r1[k] == t;
            assert(q1[k + 1] == t);
            assert(text_less(q1[0], q1[k + 1]));
            assert(q1.to_set().contains(t));
            let m = choose|m: int| 0 <= m < q2.len() && q2[m] == t;
            if m == 0 {
                lemma_text_less_irreflexive(t);
            }
            assert(r2[m - 1] == t);
        }
        assert forall|t: Seq<char>| r2.to_set().contains(t) implies r1.to_set().contains(t) by {
            let k = choose|k: int| 0 <= k < r2.len() && r2[k] == t;
            assert(q2[k + 1] == t);
            assert(text_less(q2[0], q2[k + 1]));
            assert(q2.to_set().contains(t));
            let m = choose|m: int| 0 <= m < q1.len() && q1[m] == t;
            if m == 0 {
                lemma_text_less_irreflexive(t);
            }
            assert(r1[m - 1] == t);
        }
        assert(r1.to_set() =~= r2.to_set());
        assert(sorted_texts(r1)) by {
            assert forall|a: int, b: int| 0 <= a < b < r1.len() implies text_less(#[trigger] r1[a], #[trigger] r1[b]) by {
                assert(r1[a] == q1[a + 1] && r1[b] == q1[b + 1]);
            }
        }
        assert(sorted_texts(r2)) by {
            assert forall|a: int, b: int| 0 <= a < b < r2.len() implies text_less(#[trigger] r2[a], #[trigger] r2[b]) by {
                assert(r2[a] == q2[a + 1] && r2[b] == q2[b + 1]);
            }
        }
        lemma_sorted_unique(r1, r2);
        assert(q1 =~= seq![q1[0]] + r1);
        assert(q2 =~= seq![q2[0]] + r2);
    }
}

/// Sorts distinct texts: the result holds the same texts, in order.
pub fn sort_texts(v: Vec<String>) -> (r: Vec<String>)
    requires
        strings_view(v@).no_duplicates(),
    ensures
        strings_view(r@).to_set() == strings_view(v@).to_set(),
        sorted_texts(strings_view(r@)),
        strings_view(r@) == sorted_set(strings_view(v@).to_set()),
{
    let ghost sv = strings_view(v@);
    let ghost n0 = v@.len();
    let mut rest = v;
    let mut out: Vec<String> = Vec::new();
    let ghost mut k: int = 0;
    assert(sv.take(0).to_set() =~= Set::<Seq<char>>::empty());
    assert(strings_view(out@).to_set() =~= Set::<Seq<char>>::empty());
    while rest.len() > 0
        invariant
            0 <= k <= n0,
            n0 == sv.len(),
            strings_view(rest@) == sv.skip(k),
            sv.no_duplicates(),
            sorted_texts(strings_view(out@)),
            strings_view(out@).to_set() == sv.take(k).to_set(),
        decreases rest@.len(),
    {
        let ghost before = rest@;
        let x = rest.remove(0);
        let ghost xs = x@;
        let ghost o = strings_view(out@);
        proof {
            assert(strings_view(before).len() == before.len());
            assert(sv.skip(k).len() > 0);
            assert(strings_view(before)[0] == xs);
            assert(sv.skip(k)[0] == sv[k]);
            assert(strings_view(rest@) =~= strings_view(before).drop_first());
            assert(sv.skip(k).drop_first() =~= sv.skip(k + 1));
        }
        assert(!o.to_set().contains(xs)) by {
            if o.to_set().contains(xs) {
                assert(sv.take(k).to_set().contains(xs));
                let m = choose|m: int| 0 <= m < sv.take(k).len() && sv.take(k)[m] == xs;
                assert(sv[m] == sv[k]);
            }
        }
        let mut p: usize = 0;
        while p < out.len() && less_text(out[p].as_str(), x.as_str())
            invariant
                0 <= p <= out@.len(),
                o == strings_view(out@),
                xs == x@,
                forall|a: int| 0 <= a < p ==> text_less(#[trigger] o[a], xs),
            decreases out@.len() - p,
        {
            assert(o[p as int] == out@[p as int]@);
            p = p + 1;
        }
        if p < out.len() {
            assert(o[p as int] == out@[p as int]@);
            assert(!text_less(o[p as int], xs));
            assert(o[p as int] != xs) by {
                assert(o.to_set().contains(o[p as int]));
            }
            proof {
                lemma_text_less_total(o[p as int], xs);
            }
        }
        out.insert(p, x);
        let ghost n = strings_view(out@);
        proof {
            assert(n =~= o.insert(p as int, xs));
            assert forall|a: int, b: int| 0 <= a < b < n.len() implies text_less(#[trigger] n[a], #[trigger] n[b]) by {
                if b < p {
                    assert(n[a] == o[a] && n[b] == o[b]);
                } else if a < p && b == p {
                    assert(n[a] == o[a] && n[b] == xs);
                } else if a < p && b > p {
                    assert(n[a] == o[a] && n[b] == o[b - 1]);
                    if b - 1 > p {
                        assert(text_less(o[p as int], o[b - 1]));
                        lemma_text_less_transitive(xs, o[p as int], o[b - 1]);
                    }
                    lemma_text_less_transitive(o[a], xs, o[b - 1]);
                } else if a == p {
                    assert(n[a] == xs && n[b] == o[b - 1]);
                    if b - 1 > p {
                        assert(text_less(o[p as int], o[b - 1]));
                        lemma_text_less_transitive(xs, o[p as int], o[b - 1]);
                    }
                } else {
                    assert(n[a] == o[a - 1] && n[b] == o[b - 1]);
                }
            }
            assert(sv[k] == xs);
            assert(sv.take(k + 1) =~= sv.take(k).push(xs));
            assert(n.to_set() =~= o.to_set().insert(xs)) by {
                assert forall|t: Seq<char>| n.to_set().contains(t) implies o.to_set().insert(xs).contains(t) by {
                    let m = choose|m: int| 0 <= m < n.len() && n[m] == t;
                    if m < p {
                        assert(o[m] == t);
                    } else if m > p {
                        assert(o[m - 1] == t);
                    }
                }
                assert forall|t: Seq<char>| o.to_set().insert(xs).contains(t) implies n.to_set().contains(t) by {
                    if t == xs {
                        assert(n[p as int] == xs);
                    } else {
                        let m = choose|m: int| 0 <= m < o.len() && o[m] == t;
                        if m < p {
                            assert(n[m] == t);
                        } else {
                            assert(n[m + 1] == t);
                        }
                    }
                }
            }
            assert(sv.take(k + 1).to_set() =~= sv.take(k).to_set().insert(xs)) by {
                let q = sv.take(k + 1);
                assert forall|t: Seq<char>| q.to_set().contains(t) implies sv.take(k).to_set().insert(xs).contains(t) by {
                    let m = choose|m: int| 0 <= m < q.len() && q[m] == t;
                    if m < k {
                        assert(sv.take(k)[m] == t);
                    }
                }
                assert forall|t: Seq<char>| sv.take(k).to_set().insert(xs).contains(t) implies q.to_set().contains(t) by {
                    if t == xs {
                        assert(q[k] == xs);
                    } else {
                        let m = choose|m: int| 0 <= m < sv.take(k).len() && sv.take(k)[m] == t;
                        assert(q[m] == t);
                    }
                }
            }
            k = k + 1;
        }
    }
    proof {
        assert(sv.skip(k).len() == 0);
    }
    proof {
        assert(sv.take(k) =~= sv);
        let c = sorted_set(sv.to_set());
        assert(strings_view(out@).to_set() == sv.to_set() && sorted_texts(strings_view(out@)));
        lemma_sorted_unique(c, strings_view(out@));
    }
    out
}

} // verus!
