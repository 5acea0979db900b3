//! Link extraction: the same-host, fragment-free addresses that a page links
//! to, without duplicates and in sorted order.
use vstd::prelude::*;

use crate::address::{resolve, resolved, same_domain, same_domain_spec};
use crate::bucket::views;
use crate::order::{
    lemma_lex_total,
    lemma_lex_transitive,
    lemma_sorted_unique,
    lex_lt,
    sorted_strict,
    str_less,
};
use crate::page::{html_hrefs, link_targets};

verus! {

/// The link text `href` on a page at `base` leads to the address `t`, and
/// `t` has the host of `base`.
pub open spec fn accepts(base: Seq<char>, href: Seq<char>, t: Seq<char>) -> bool {
    resolved(base, href) == Some(t) && same_domain_spec(t, base)
}

/// The addresses that the link texts `hrefs` on a page at `base` lead to
/// on its host.
pub open spec fn link_set(base: Seq<char>, hrefs: Seq<Seq<char>>) -> Set<Seq<char>> {
    Set::new(|t: Seq<char>| exists|h: Seq<char>| hrefs.contains(h) && accepts(base, h, t))
}

/// Those addresses as a strictly sorted sequence.
pub open spec fn sorted_links(base: Seq<char>, hrefs: Seq<Seq<char>>) -> Seq<Seq<char>> {
    choose|r: Seq<Seq<char>>| sorted_strict(r) && r.to_set() == link_set(base, hrefs)
}

proof fn lemma_sorted_links_is(base: Seq<char>, hrefs: Seq<Seq<char>>, r: Seq<Seq<char>>)
    requires
        sorted_strict(r),
        r.to_set() == link_set(base, hrefs),
    ensures
        sorted_links(base, hrefs) == r,
{
    assert(sorted_strict(r) && r.to_set() == link_set(base, hrefs));
    let c = sorted_links(base, hrefs);
    lemma_sorted_unique(c, r);
}

proof fn lemma_link_set_push(base: Seq<char>, hs: Seq<Seq<char>>, h: Seq<char>)
    ensures
        link_set(base, hs.push(h)) == (match resolved(base, h) {
            Some(t) => if same_domain_spec(t, base) {
                link_set(base, hs).insert(t)
            } else {
                link_set(base, hs)
            },
            None => link_set(base, hs),
        }),
{
    let l = link_set(base, hs.push(h));
    let r = match resolved(base, h) {
        Some(t) => if same_domain_spec(t, base) {
            link_set(base, hs).insert(t)
        } else {
            link_set(base, hs)
        },
        None => link_set(base, hs),
    };
    assert forall|x: Seq<char>| l.contains(x) implies r.contains(x) by {
        let g = choose|g: Seq<char>| hs.push(h).contains(g) && accepts(base, g, x);
        let k = choose|k: int| 0 <= k < hs.push(h).len() && hs.push(h)[k] == g;
        if k < hs.len() {
            assert(hs[k] == g);
            assert(hs.contains(g));
        }
    }
    assert forall|x: Seq<char>| r.contains(x) implies l.contains(x) by {
        if link_set(base, hs).contains(x) {
            let g = choose|g: Seq<char>| hs.contains(g) && accepts(base, g, x);
            let k = choose|k: int| 0 <= k < hs.len() && hs[k] == g;
            assert(hs.push(h)[k] == g);
            assert(hs.push(h).contains(g));
        } else {
            assert(hs.push(h)[hs.len() as int] == h);
            assert(hs.push(h).contains(h));
        }
    }
    assert(l =~= r);
}

proof fn lemma_insert_sorted(s: Seq<Seq<char>>, j: int, x: Seq<char>)
    requires
        sorted_strict(s),
        0 <= j <= s.len(),
        forall|k: int| 0 <= k < j ==> lex_lt(#[trigger] s[k], x),
        forall|k: int| j <= k < s.len() ==> lex_lt(x, #[trigger] s[k]),
    ensures
        sorted_strict(s.insert(j, x)),
        s.insert(j, x).to_set() == s.to_set().insert(x),
{
    let w = s.insert(j, x);
    assert forall|a: int, b: int| 0 <= a < b < w.len() implies lex_lt(
        #[trigger] w[a],
        #[trigger] w[b],
    ) by {
        if a < j {
            if b > j {
                assert(w[b] == s[b - 1]);
            }
        } else if a > j {
            assert(w[a] == s[a - 1] && w[b] == s[b - 1]);
        } else {
            assert(w[b] == s[b - 1]);
        }
    }
    assert forall|y: Seq<char>| w.to_set().contains(y) implies s.to_set().insert(x).contains(y) by {
        let k = choose|k: int| 0 <= k < w.len() && w[k] == y;
        if k < j {
            assert(s[k] == y);
        } else if k > j {
            assert(s[k - 1] == y);
        }
    }
    assert forall|y: Seq<char>| s.to_set().insert(x).contains(y) implies w.to_set().contains(y) by {
        if y == x {
            assert(w[j] == x);
        } else {
            let k = choose|k: int| 0 <= k < s.len() && s[k] == y;
            if k < j {
                assert(w[k] == y);
            } else {
                assert(w[k + 1] == y);
            }
        }
    }
    assert(w.to_set() =~= s.to_set().insert(x));
}

/// Adds `t` to the strictly sorted `v` unless it is there already.
fn insert_sorted(v: &mut Vec<String>, t: String)
    requires
        sorted_strict(views(old(v)@)),
    ensures
        sorted_strict(views(final(v)@)),
        views(final(v)@).to_set() == views(old(v)@).to_set().insert(t@),
{
    let n = v.len();
    let mut j: usize = 0;
    let mut found = false;
    while !found && j < n
        invariant
            n == v@.len(),
            j <= n,
            sorted_strict(views(v@)),
            forall|k: int| 0 <= k < j ==> lex_lt(#[trigger] views(v@)[k], t@),
            found ==> j < n && !lex_lt(views(v@)[j as int], t@),
        decreases n - j, if found {
            0int
        } else {
            1int
        },
    {
        if str_less(v[j].as_str(), t.as_str()) {
            j += 1;
        } else {
            found = true;
        }
    }
    let ghost s = views(v@);
    if j < n && v[j] == t {
        assert(s.to_set().insert(t@) =~= s.to_set()) by {
            assert(s[j as int] == t@);
        }
    } else {
        proof {
            assert forall|k: int| j <= k < s.len() implies lex_lt(t@, #[trigger] s[k]) by {
                lemma_lex_total(s[j as int], t@);
                if k > j {
                    lemma_lex_transitive(t@, s[j as int], s[k]);
                }
            }
            lemma_insert_sorted(s, j as int, t@);
        }
        let ghost tv = t@;
        v.insert(j, t);
        assert(views(v@) =~= s.insert(j as int, tv));
    }
}

/// The addresses that the link texts `hrefs` on a page at `base` lead to
/// on the host of `base`, each once, in sorted order. Texts that do
/// not resolve are skipped.
pub fn links_from_hrefs(base: &str, hrefs: &Vec<String>) -> (r: Vec<String>)
    ensures
        views(r@) == sorted_links(base@, views(hrefs@)),
        sorted_strict(views(r@)),
        views(r@).to_set() == link_set(base@, views(hrefs@)),
{
    let mut out: Vec<String> = Vec::new();
    let mut i: usize = 0;
    assert(views(hrefs@).take(0) =~= Seq::<Seq<char>>::empty());
    assert(link_set(base@, Seq::<Seq<char>>::empty()) =~= Set::<Seq<char>>::empty());
    assert(views(out@).to_set() =~= Set::<Seq<char>>::empty());
    while i < hrefs.len()
        invariant
            i <= hrefs@.len(),
            sorted_strict(views(out@)),
            views(out@).to_set() == link_set(base@, views(hrefs@).take(i as int)),
        decreases hrefs@.len() - i,
    {
        let ghost hs = views(hrefs@).take(i as int);
        let ghost h = hrefs@[i as int]@;
        assert(views(hrefs@).take(i + 1) =~= hs.push(h));
        proof {
            lemma_link_set_push(base@, hs, h);
        }
        match resolve(base, hrefs[i].as_str()) {
            Some(t) => {
                if same_domain(t.as_str(), base) {
                    insert_sorted(&mut out, t);
                }
            },
            None => {},
        }
        i += 1;
    }
    assert(views(hrefs@).take(i as int) =~= views(hrefs@));
    proof {
        lemma_sorted_links_is(base@, views(hrefs@), views(out@));
    }
    out
}

/// The same-host links of the document `html` fetched from `base`, each
/// once, in sorted order.
pub fn extract_links(base: &str, html: &str) -> (r: Vec<String>)
    ensures
        views(r@) == sorted_links(base@, html_hrefs(html@)),
{
    let hrefs = link_targets(html);
    links_from_hrefs(base, &hrefs)
}

/// The links found on a page depend only on which link texts it holds: not
/// on their order, nor on how often each occurs.
pub proof fn lemma_links_order_independent(
    base: Seq<char>,
    hrefs1: Seq<Seq<char>>,
    hrefs2: Seq<Seq<char>>,
)
    requires
        hrefs1.to_set() == hrefs2.to_set(),
    ensures
        sorted_links(base, hrefs1) == sorted_links(base, hrefs2),
{
    assert forall|h: Seq<char>| hrefs1.contains(h) <==> hrefs2.contains(h) by {
        assert(hrefs1.contains(h) <==> hrefs1.to_set().contains(h));
        assert(hrefs2.contains(h) <==> hrefs2.to_set().contains(h));
    }
    assert(link_set(base, hrefs1) =~= link_set(base, hrefs2));
}

/// Reading the same document's link texts twice over yields the same links
/// as reading them once.
pub proof fn lemma_links_idempotent(base: Seq<char>, hrefs: Seq<Seq<char>>)
    ensures
        sorted_links(base, hrefs + hrefs) == sorted_links(base, hrefs),
{
    let d = hrefs + hrefs;
    assert forall|h: Seq<char>| d.to_set().contains(h) <==> hrefs.to_set().contains(h) by {
        if d.contains(h) {
            let k = choose|k: int| 0 <= k < d.len() && d[k] == h;
            if k < hrefs.len() {
                assert(hrefs[k] == h);
            } else {
                assert(hrefs[k - hrefs.len()] == h);
            }
        }
        if hrefs.contains(h) {
            let k = choose|k: int| 0 <= k < hrefs.len() && hrefs[k] == h;
            assert(d[k] == h);
        }
    }
    assert(d.to_set() =~= hrefs.to_set());
    lemma_links_order_independent(base, d, hrefs);
}

} // verus!
