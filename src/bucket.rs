//! Output bucket keys: an address reduced to at most a fixed number of
//! leading path segments, and the text appended to a bucket per page.
use vstd::prelude::*;

verus! {

/// How many leading segments of an address a bucket key keeps.
pub const MAX_SEGMENTS: usize = 3;

/// What `char::is_alphanumeric` answers for `c`.
pub uninterp spec fn alphanumeric(c: char) -> bool;

/// An ASCII letter or digit.
pub open spec fn ascii_alphanumeric(c: char) -> bool {
    'a' <= c <= 'z' || 'A' <= c <= 'Z' || '0' <= c <= '9'
}

/// Relies on `char::is_alphanumeric`: true for characters that are
/// alphabetic or numeric in Unicode; among ASCII characters, exactly the
/// letters and digits.
#[verifier::external_body]
fn is_alphanumeric(c: char) -> (r: bool)
    ensures
        r == alphanumeric(c),
        (c as u32) < 128 ==> (r <==> ascii_alphanumeric(c)),
{
    c.is_alphanumeric()
}

/// A character that stays inside a segment: an alphanumeric one or a dot.
/// Every other one separates, the underscore (never alphanumeric) too.
pub open spec fn in_segment(c: char) -> bool {
    c == '.' || (c != '_' && alphanumeric(c))
}

/// The non-empty runs of segment characters of `s`, where `cur` is the run
/// already begun before `s`.
pub open spec fn split_from(s: Seq<char>, cur: Seq<char>) -> Seq<Seq<char>>
    decreases s.len(),
{
    if s.len() == 0 {
        if cur.len() == 0 {
            seq![]
        } else {
            seq![cur]
        }
    } else if in_segment(s[0]) {
        split_from(s.drop_first(), cur.push(s[0]))
    } else {
        (if cur.len() == 0 {
            seq![]
        } else {
            seq![cur]
        }) + split_from(s.drop_first(), seq![])
    }
}

/// The segments of `s`: its maximal non-empty runs of segment characters.
pub open spec fn segments(s: Seq<char>) -> Seq<Seq<char>> {
    split_from(s, seq![])
}

/// The segments joined, in order, with one underscore between neighbours.
pub open spec fn join_segments(segs: Seq<Seq<char>>) -> Seq<char>
    decreases segs.len(),
{
    if segs.len() == 0 {
        seq![]
    } else if segs.len() == 1 {
        segs[0]
    } else {
        join_segments(segs.drop_last()) + seq!['_'] + segs.last()
    }
}

/// A character that may stand in a URL scheme.
pub open spec fn scheme_char(c: char) -> bool {
    ascii_alphanumeric(c) || c == '+' || c == '-' || c == '.'
}

/// The length of the leading run of scheme characters of `s`.
pub open spec fn scheme_run(s: Seq<char>) -> nat
    decreases s.len(),
{
    if s.len() > 0 && scheme_char(s[0]) {
        1 + scheme_run(s.drop_first())
    } else {
        0
    }
}

/// An address without its leading scheme: when it opens with scheme
/// characters followed by `:`, what comes after that `:`; else the
/// address unchanged.
pub open spec fn without_scheme(address: Seq<char>) -> Seq<char> {
    let k = scheme_run(address);
    if 0 < k < address.len() && address[k as int] == ':' {
        address.skip(k as int + 1)
    } else {
        address
    }
}

proof fn lemma_scheme_run(s: Seq<char>, i: int)
    requires
        0 <= i <= s.len(),
        forall|j: int| 0 <= j < i ==> scheme_char(#[trigger] s[j]),
        i == s.len() || !scheme_char(s[i]),
    ensures
        scheme_run(s) == i,
    decreases i,
{
    if i > 0 {
        assert forall|j: int| 0 <= j < i - 1 implies scheme_char(#[trigger] s.drop_first()[j]) by {
            assert(s.drop_first()[j] == s[j + 1]);
        }
        lemma_scheme_run(s.drop_first(), i - 1);
    }
}

fn is_scheme_char(c: char) -> (r: bool)
    ensures
        r == scheme_char(c),
{
    ('a' <= c && c <= 'z') || ('A' <= c && c <= 'Z') || ('0' <= c && c <= '9') || c == '+' || c
        == '-' || c == '.'
}

/// Removes the leading scheme and its `:` from `address`.
pub fn strip_scheme(address: &str) -> (r: String)
    ensures
        r@ == without_scheme(address@),
{
    let n = address.unicode_len();
    let mut i: usize = 0;
    let mut done = false;
    while !done && i < n
        invariant
            n == address@.len(),
            i <= n,
            forall|j: int| 0 <= j < i ==> scheme_char(#[trigger] address@[j]),
            done ==> i < n && !scheme_char(address@[i as int]),
        decreases n - i, if done {
            0int
        } else {
            1int
        },
    {
        if is_scheme_char(address.get_char(i)) {
            i += 1;
        } else {
            done = true;
        }
    }
    proof {
        lemma_scheme_run(address@, i as int);
    }
    if 0 < i && i < n && address.get_char(i) == ':' {
        address.substring_char(i + 1, n).to_owned()
    } else {
        address.to_owned()
    }
}

/// The bucket key of an address: all its segments when there are at most
/// `MAX_SEGMENTS` of them, else only the first `MAX_SEGMENTS`, joined by
/// underscores.
pub open spec fn bucket_key_of(address: Seq<char>) -> Seq<char> {
    let segs = segments(without_scheme(address));
    if segs.len() <= MAX_SEGMENTS {
        join_segments(segs)
    } else {
        join_segments(segs.take(MAX_SEGMENTS as int))
    }
}

/// The character sequences that a vector of strings holds.
pub open spec fn views(v: Seq<String>) -> Seq<Seq<char>> {
    v.map_values(|x: String| x@)
}

/// Splits `s` into its segments.
pub fn split_segments(s: &str) -> (r: Vec<String>)
    ensures
        views(r@) == segments(s@),
{
    let n = s.unicode_len();
    let mut out: Vec<String> = Vec::new();
    let mut start: usize = 0;
    let mut i: usize = 0;
    assert(s@.skip(0) =~= s@);
    assert(s@.subrange(0, 0) =~= Seq::<char>::empty());
    assert(views(out@) =~= Seq::<Seq<char>>::empty());
    assert(views(out@) + segments(s@) =~= segments(s@));
    while i < n
        invariant
            n == s@.len(),
            start <= i <= n,
            segments(s@) == views(out@) + split_from(s@.skip(i as int), s@.subrange(
                start as int,
                i as int,
            )),
        decreases n - i,
    {
        let c = s.get_char(i);
        let ghost rest = s@.skip(i as int);
        let ghost cur = s@.subrange(start as int, i as int);
        assert(rest[0] == c);
        assert(rest.drop_first() =~= s@.skip(i + 1));
        if is_alphanumeric(c) || c == '.' {
            assert(cur.push(c) =~= s@.subrange(start as int, i + 1));
            i += 1;
        } else {
            let ghost before = views(out@);
            if start < i {
                let piece = s.substring_char(start, i).to_owned();
                out.push(piece);
                assert(views(out@) =~= before + seq![cur]);
            } else {
                assert(cur.len() == 0);
                assert(views(out@) =~= before + seq![]);
            }
            i += 1;
            start = i;
            assert(s@.subrange(start as int, i as int) =~= Seq::<char>::empty());
            assert(views(out@) + split_from(s@.skip(i as int), seq![]) =~= before + ((if cur.len()
                == 0 {
                seq![]
            } else {
                seq![cur]
            }) + split_from(rest.drop_first(), seq![])));
        }
    }
    let ghost cur = s@.subrange(start as int, n as int);
    let ghost before = views(out@);
    assert(s@.skip(n as int) =~= Seq::<char>::empty());
    if start < n {
        let piece = s.substring_char(start, n).to_owned();
        out.push(piece);
        assert(views(out@) =~= before + seq![cur]);
    } else {
        assert(views(out@) =~= before + seq![]);
    }
    out
}

/// Joins the first `k` strings of `segs` with underscores.
pub fn join_first(segs: &Vec<String>, k: usize) -> (r: String)
    requires
        k <= segs@.len(),
    ensures
        r@ == join_segments(views(segs@).take(k as int)),
{
    let mut r = String::new();
    let mut i: usize = 0;
    while i < k
        invariant
            k <= segs@.len(),
            i <= k,
            r@ == join_segments(views(segs@).take(i as int)),
        decreases k - i,
    {
        let ghost next = views(segs@).take(i + 1);
        assert(next.drop_last() =~= views(segs@).take(i as int));
        assert(next.last() == segs@[i as int]@);
        let ghost prev = r@;
        if i > 0 {
            proof {
                reveal_strlit("_");
            }
            assert("_"@ =~= seq!['_']);
            r.append("_");
            r.append(segs[i].as_str());
            assert(r@ =~= prev + seq!['_'] + next.last());
        } else {
            assert(views(segs@).take(0) =~= Seq::<Seq<char>>::empty());
            r.append(segs[i].as_str());
            assert(r@ =~= next[0]);
        }
        i += 1;
    }
    r
}

/// The key of the bucket that the page at `address` goes to.
pub fn bucket_key(address: &str) -> (r: String)
    ensures
        r@ == bucket_key_of(address@),
{
    let stripped = strip_scheme(address);
    let segs = split_segments(stripped.as_str());
    if segs.len() <= MAX_SEGMENTS {
        assert(views(segs@).take(segs@.len() as int) =~= views(segs@));
        join_first(&segs, segs.len())
    } else {
        join_first(&segs, MAX_SEGMENTS)
    }
}

/// How many underscores `s` holds.
pub open spec fn underscores(s: Seq<char>) -> nat
    decreases s.len(),
{
    if s.len() == 0 {
        0
    } else {
        underscores(s.drop_last()) + if s.last() == '_' {
            1nat
        } else {
            0nat
        }
    }
}

proof fn lemma_underscores_add(a: Seq<char>, b: Seq<char>)
    ensures
        underscores(a + b) == underscores(a) + underscores(b),
    decreases b.len(),
{
    if b.len() == 0 {
        assert(a + b =~= a);
    } else {
        assert((a + b).drop_last() =~= a + b.drop_last());
        lemma_underscores_add(a, b.drop_last());
    }
}

proof fn lemma_no_underscores(s: Seq<char>)
    requires
        forall|j: int| 0 <= j < s.len() ==> s[j] != '_',
    ensures
        underscores(s) == 0,
    decreases s.len(),
{
    if s.len() > 0 {
        lemma_no_underscores(s.drop_last());
    }
}

proof fn lemma_split_no_underscores(s: Seq<char>, cur: Seq<char>)
    requires
        forall|j: int| 0 <= j < cur.len() ==> cur[j] != '_',
    ensures
        forall|i: int, j: int|
            0 <= i < split_from(s, cur).len() && 0 <= j < split_from(s, cur)[i].len()
                ==> split_from(s, cur)[i][j] != '_',
    decreases s.len(),
{
    if s.len() == 0 {
        if cur.len() > 0 {
            assert(seq![cur][0] == cur);
        }
    } else {
        if in_segment(s[0]) {
            assert forall|j: int| 0 <= j < cur.push(s[0]).len() implies cur.push(s[0])[j]
                != '_' by {
                if j < cur.len() {
                    assert(cur.push(s[0])[j] == cur[j]);
                }
            }
            lemma_split_no_underscores(s.drop_first(), cur.push(s[0]));
            assert(split_from(s, cur) == split_from(s.drop_first(), cur.push(s[0])));
        } else {
            let head: Seq<Seq<char>> = if cur.len() == 0 {
                seq![]
            } else {
                seq![cur]
            };
            let tail = split_from(s.drop_first(), seq![]);
            lemma_split_no_underscores(s.drop_first(), seq![]);
            assert(split_from(s, cur) == head + tail);
            assert forall|i: int, j: int|
                0 <= i < (head + tail).len() && 0 <= j < (head + tail)[i].len() implies (head
                + tail)[i][j] != '_' by {
                if i >= head.len() {
                    assert((head + tail)[i] == tail[i - head.len()]);
                }
            }
        }
    }
}

proof fn lemma_join_underscores(segs: Seq<Seq<char>>)
    requires
        forall|i: int, j: int| 0 <= i < segs.len() && 0 <= j < segs[i].len() ==> segs[i][j] != '_',
    ensures
        underscores(join_segments(segs)) == if segs.len() == 0 {
            0
        } else {
            (segs.len() - 1) as nat
        },
    decreases segs.len(),
{
    if segs.len() == 1 {
        lemma_no_underscores(segs[0]);
    } else if segs.len() > 1 {
        let init = segs.drop_last();
        lemma_join_underscores(init);
        lemma_no_underscores(segs.last());
        assert(seq!['_'].drop_last() =~= Seq::<char>::empty());
        assert(seq!['_'].last() == '_');
        assert(underscores(Seq::<char>::empty()) == 0);
        assert(underscores(seq!['_']) == 1);
        lemma_underscores_add(join_segments(init), seq!['_']);
        lemma_underscores_add(join_segments(init) + seq!['_'], segs.last());
    }
}

/// Addresses with more than `MAX_SEGMENTS` segments whose first
/// `MAX_SEGMENTS` segments agree share one bucket.
pub proof fn lemma_deep_addresses_merge(a: Seq<char>, b: Seq<char>)
    requires
        segments(without_scheme(a)).len() > MAX_SEGMENTS,
        segments(without_scheme(b)).len() > MAX_SEGMENTS,
        segments(without_scheme(a)).take(MAX_SEGMENTS as int) == segments(without_scheme(
            b,
        )).take(MAX_SEGMENTS as int),
    ensures
        bucket_key_of(a) == bucket_key_of(b),
{
}

/// An address with fewer than `MAX_SEGMENTS` segments never shares a bucket
/// with one that has `MAX_SEGMENTS` or more.
pub proof fn lemma_shallow_addresses_apart(a: Seq<char>, b: Seq<char>)
    requires
        segments(without_scheme(a)).len() < MAX_SEGMENTS,
        segments(without_scheme(b)).len() >= MAX_SEGMENTS,
    ensures
        bucket_key_of(a) != bucket_key_of(b),
{
    let sa = segments(without_scheme(a));
    let sb = segments(without_scheme(b));
    lemma_split_no_underscores(without_scheme(a), seq![]);
    lemma_split_no_underscores(without_scheme(b), seq![]);
    lemma_join_underscores(sa);
    let tb = sb.take(MAX_SEGMENTS as int);
    assert forall|i: int, j: int| 0 <= i < tb.len() && 0 <= j < tb[i].len() implies tb[i][j]
        != '_' by {
        assert(tb[i] == sb[i]);
    }
    lemma_join_underscores(tb);
    if sb.len() == MAX_SEGMENTS {
        assert(tb =~= sb);
    }
}

} // verus!
