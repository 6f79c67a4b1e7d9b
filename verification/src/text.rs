//! Turns the pretty-printed rendering of a parameter struct into the
//! key=value header line the drivers print: split into lines, trim each,
//! drop the first and last line, join the rest with semicolons, turn
//! every ": " into "=", and strip the commas.  Everything works on plain
//! bytes.

use vstd::prelude::*;

verus! {

/// The bytes the line trim removes.
pub open spec fn spec_is_space(c: u8) -> bool {
    c == 32 || c == 9 || c == 13 || c == 10
}

/// The sequence without leading and trailing whitespace.
pub open spec fn spec_trim(s: Seq<u8>) -> Seq<u8>
    decreases s.len(),
{
    if s.len() == 0 {
        s
    } else if spec_is_space(s[0]) {
        spec_trim(s.drop_first())
    } else if spec_is_space(s.last()) {
        spec_trim(s.drop_last())
    } else {
        s
    }
}

/// The first position of `c`, or a negative result when `c` is absent.
pub open spec fn spec_find(s: Seq<u8>, c: u8) -> int
    decreases s.len(),
{
    if s.len() == 0 {
        -1
    } else if s[0] == c {
        0
    } else {
        let r = spec_find(s.drop_first(), c);
        if r < 0 {
            -1
        } else {
            r + 1
        }
    }
}

/// Where the find lands: on `c`, after a `c`-free prefix, or nowhere.
pub proof fn lemma_find_props(s: Seq<u8>, c: u8)
    ensures
        -1 <= spec_find(s, c) < s.len(),
        spec_find(s, c) >= 0 ==> s[spec_find(s, c)] == c,
        forall|j: int| 0 <= j < s.len() && #[trigger] s[j] == c ==> spec_find(s, c) >= 0,
        forall|j: int| 0 <= j < spec_find(s, c) ==> #[trigger] s[j] != c,
    decreases s.len(),
{
    if s.len() > 0 && s[0] != c {
        lemma_find_props(s.drop_first(), c);
        assert forall|j: int| 0 <= j < s.len() && #[trigger] s[j] == c implies spec_find(s, c)
            >= 0 by {
            if j > 0 {
                assert(s.drop_first()[j - 1] == c);
            }
        }
        assert forall|j: int| 0 <= j < spec_find(s, c) implies #[trigger] s[j] != c by {
            if j > 0 {
                assert(s.drop_first()[j - 1] != c);
            }
        }
    }
}

/// The parts of `s` between occurrences of `c`.
pub open spec fn spec_split(s: Seq<u8>, c: u8) -> Seq<Seq<u8>>
    decreases s.len(),
{
    let f = spec_find(s, c);
    if f < 0 || f >= s.len() {
        seq![s]
    } else {
        seq![s.subrange(0, f)] + spec_split(s.subrange(f + 1, s.len() as int), c)
    }
}

/// The parts joined with `c` between them.
pub open spec fn spec_join(parts: Seq<Seq<u8>>, c: u8) -> Seq<u8>
    decreases parts.len(),
{
    if parts.len() == 0 {
        Seq::empty()
    } else if parts.len() == 1 {
        parts[0]
    } else {
        parts[0] + seq![c] + spec_join(parts.drop_first(), c)
    }
}

/// Every ": " replaced by "=".
pub open spec fn spec_replace_colon_space(s: Seq<u8>) -> Seq<u8>
    decreases s.len(),
{
    if s.len() == 0 {
        Seq::empty()
    } else if s.len() >= 2 && s[0] == 58 && s[1] == 32 {
        seq![61u8] + spec_replace_colon_space(s.skip(2))
    } else {
        seq![s[0]] + spec_replace_colon_space(s.skip(1))
    }
}

/// Every comma removed.
pub open spec fn spec_remove_commas(s: Seq<u8>) -> Seq<u8>
    decreases s.len(),
{
    if s.len() == 0 {
        Seq::empty()
    } else if s[0] == 44 {
        spec_remove_commas(s.skip(1))
    } else {
        seq![s[0]] + spec_remove_commas(s.skip(1))
    }
}

/// The whole transformation.
pub open spec fn spec_debug_to_kw(s: Seq<u8>) -> Seq<u8> {
    let lines = spec_split(s, 10);
    let trimmed = Seq::new(lines.len(), |i: int| spec_trim(lines[i]));
    let mid = if trimmed.len() < 2 {
        Seq::<Seq<u8>>::empty()
    } else {
        trimmed.subrange(1, trimmed.len() - 1)
    };
    spec_remove_commas(spec_trim(spec_replace_colon_space(spec_join(mid, 59))))
}

/// Whether the trim removes this byte.
pub fn is_space(c: u8) -> (r: bool)
    ensures
        r == spec_is_space(c),
{
    c == 32 || c == 9 || c == 13 || c == 10
}

/// The sequence without leading and trailing whitespace.
pub fn trim_bytes(v: &Vec<u8>) -> (r: Vec<u8>)
    ensures
        r@ == spec_trim(v@),
{
    let mut lo: usize = 0;
    let mut hi: usize = v.len();
    proof {
        assert(v@.subrange(0, v.len() as int) =~= v@);
    }
    while lo < hi && is_space(v[lo])
        invariant
            lo <= hi <= v.len(),
            spec_trim(v@) == spec_trim(v@.subrange(lo as int, hi as int)),
        decreases hi - lo,
    {
        proof {
            assert(v@.subrange(lo as int, hi as int).drop_first() =~= v@.subrange(
                lo + 1,
                hi as int,
            ));
        }
        lo = lo + 1;
    }
    while lo < hi && is_space(v[hi - 1])
        invariant
            lo <= hi <= v.len(),
            spec_trim(v@) == spec_trim(v@.subrange(lo as int, hi as int)),
            lo < hi ==> !spec_is_space(v@[lo as int]),
        decreases hi - lo,
    {
        proof {
            assert(v@.subrange(lo as int, hi as int).drop_last() =~= v@.subrange(
                lo as int,
                hi - 1,
            ));
        }
        hi = hi - 1;
    }
    let mut r: Vec<u8> = Vec::new();
    let mut i: usize = lo;
    while i < hi
        invariant
            lo <= i <= hi <= v.len(),
            r@ =~= v@.subrange(lo as int, i as int),
        decreases hi - i,
    {
        let b = v[i];
        r.push(b);
        proof {
            assert(r@ =~= v@.subrange(lo as int, i + 1));
        }
        i = i + 1;
    }
    proof {
        assert(r@ =~= v@.subrange(lo as int, hi as int));
        if lo < hi {
            assert(!spec_is_space(v@.subrange(lo as int, hi as int)[0]));
            assert(!spec_is_space(v@.subrange(lo as int, hi as int).last()));
        }
    }
    r
}

/// A `c`-free prefix shifts the find past itself.
proof fn lemma_find_prefix(pre: Seq<u8>, post: Seq<u8>, c: u8)
    requires
        forall|j: int| 0 <= j < pre.len() ==> #[trigger] pre[j] != c,
    ensures
        post.len() > 0 && post[0] == c ==> spec_find(pre + post, c) == pre.len(),
        post.len() == 0 ==> spec_find(pre + post, c) == -1,
    decreases pre.len(),
{
    if pre.len() == 0 {
        assert(pre + post =~= post);
    } else {
        lemma_find_prefix(pre.drop_first(), post, c);
        assert((pre + post).drop_first() =~= pre.drop_first() + post);
        assert((pre + post)[0] == pre[0]);
    }
}

/// The parts of `v` between occurrences of `c`.
pub fn split_bytes(v: &Vec<u8>, c: u8) -> (r: Vec<Vec<u8>>)
    ensures
        r.deep_view() == spec_split(v@, c),
{
    let mut parts: Vec<Vec<u8>> = Vec::new();
    let mut cur: Vec<u8> = Vec::new();
    let n = v.len();
    proof {
        assert(cur@ + v@.subrange(0, n as int) =~= v@);
        assert(parts.deep_view() + spec_split(v@, c) =~= spec_split(v@, c));
    }
    let mut i: usize = 0;
    while i < n
        invariant
            i <= n,
            n == v.len(),
            forall|j: int| 0 <= j < cur@.len() ==> #[trigger] cur@[j] != c,
            spec_split(v@, c) =~= parts.deep_view() + spec_split(
                cur@ + v@.subrange(i as int, n as int),
                c,
            ),
        decreases n - i,
    {
        let b = v[i];
        let ghost suffix = v@.subrange(i as int, n as int);
        if b == c {
            let ghost cur_v = cur@;
            let ghost parts_old = parts.deep_view();
            proof {
                lemma_find_prefix(cur@, suffix, c);
                assert((cur@ + suffix).subrange(0, cur@.len() as int) =~= cur@);
                assert((cur@ + suffix).subrange(
                    cur@.len() as int + 1,
                    (cur@ + suffix).len() as int,
                ) =~= v@.subrange(i + 1, n as int));
                assert(spec_split(cur_v + suffix, c) =~~= seq![cur_v] + spec_split(
                    v@.subrange(i + 1, n as int),
                    c,
                ));
            }
            parts.push(cur);
            cur = Vec::new();
            proof {
                assert(parts.deep_view() =~~= parts_old.push(cur_v));
                assert(cur@ + v@.subrange(i + 1, n as int) =~= v@.subrange(i + 1, n as int));
                assert(parts_old + (seq![cur_v] + spec_split(v@.subrange(i + 1, n as int), c))
                    =~~= parts_old.push(cur_v) + spec_split(v@.subrange(i + 1, n as int), c));
            }
        } else {
            proof {
                assert(cur@.push(b) + v@.subrange(i + 1, n as int) =~= cur@ + suffix);
            }
            cur.push(b);
        }
        i = i + 1;
    }
    let ghost cur_v = cur@;
    let ghost parts_old = parts.deep_view();
    proof {
        assert(cur@ + v@.subrange(n as int, n as int) =~= cur@);
        lemma_find_prefix(cur@, Seq::empty(), c);
        assert(cur@ + Seq::<u8>::empty() =~= cur@);
        assert(spec_split(cur_v, c) =~~= seq![cur_v]);
    }
    parts.push(cur);
    proof {
        assert(parts.deep_view() =~~= parts_old.push(cur_v));
        assert(parts_old + seq![cur_v] =~~= parts_old.push(cur_v));
    }
    parts
}

/// The parts joined with `c` between them.
pub fn join_bytes(parts: &Vec<Vec<u8>>, c: u8) -> (r: Vec<u8>)
    ensures
        r@ == spec_join(parts.deep_view(), c),
{
    let mut r: Vec<u8> = Vec::new();
    let n = parts.len();
    if n == 0 {
        return r;
    }
    proof {
        assert(parts.deep_view().skip(0) =~= parts.deep_view());
        assert(r@ + (Seq::<u8>::empty() + spec_join(parts.deep_view(), c)) =~= spec_join(
            parts.deep_view(),
            c,
        ));
    }
    let mut i: usize = 0;
    while i < n
        invariant
            i <= n,
            n == parts.len(),
            n >= 1,
            spec_join(parts.deep_view(), c) =~= r@ + (if i < n {
                (if i > 0 {
                    seq![c]
                } else {
                    Seq::<u8>::empty()
                }) + spec_join(parts.deep_view().skip(i as int), c)
            } else {
                Seq::<u8>::empty()
            }),
        decreases n - i,
    {
        if i > 0 {
            r.push(c);
        }
        let part = &parts[i];
        let mut j: usize = 0;
        let ghost r_mark = r@;
        while j < part.len()
            invariant
                j <= part.len(),
                r@ =~= r_mark + part@.subrange(0, j as int),
            decreases part.len() - j,
        {
            let b = part[j];
            r.push(b);
            proof {
                assert(r@ =~= r_mark + part@.subrange(0, j + 1));
            }
            j = j + 1;
        }
        proof {
            assert(part@.subrange(0, part@.len() as int) =~= part@);
            assert(parts.deep_view().skip(i as int)[0] =~= part@);
            assert(parts.deep_view().skip(i as int).drop_first() =~= parts.deep_view().skip(i + 1));
        }
        i = i + 1;
    }
    r
}

/// Every ": " replaced by "=".
pub fn replace_colon_space(v: &Vec<u8>) -> (r: Vec<u8>)
    ensures
        r@ == spec_replace_colon_space(v@),
{
    let mut r: Vec<u8> = Vec::new();
    let n = v.len();
    proof {
        assert(v@.subrange(0, n as int) =~= v@);
    }
    let mut i: usize = 0;
    while i < n
        invariant
            i <= n,
            n == v.len(),
            spec_replace_colon_space(v@) =~= r@ + spec_replace_colon_space(
                v@.subrange(i as int, n as int),
            ),
        decreases n - i,
    {
        let ghost suffix = v@.subrange(i as int, n as int);
        if i + 1 < n && v[i] == 58 && v[i + 1] == 32 {
            proof {
                assert(suffix.skip(2) =~= v@.subrange(i + 2, n as int));
            }
            r.push(61);
            i = i + 2;
        } else {
            proof {
                assert(suffix.skip(1) =~= v@.subrange(i + 1, n as int));
            }
            let b = v[i];
            r.push(b);
            i = i + 1;
        }
    }
    r
}

/// Every comma removed.
pub fn remove_commas(v: &Vec<u8>) -> (r: Vec<u8>)
    ensures
        r@ == spec_remove_commas(v@),
{
    let mut r: Vec<u8> = Vec::new();
    let n = v.len();
    proof {
        assert(v@.subrange(0, n as int) =~= v@);
    }
    let mut i: usize = 0;
    while i < n
        invariant
            i <= n,
            n == v.len(),
            spec_remove_commas(v@) =~= r@ + spec_remove_commas(v@.subrange(i as int, n as int)),
        decreases n - i,
    {
        let ghost suffix = v@.subrange(i as int, n as int);
        proof {
            assert(suffix.skip(1) =~= v@.subrange(i + 1, n as int));
        }
        let b = v[i];
        if b != 44 {
            r.push(b);
        }
        i = i + 1;
    }
    r
}

/// The key=value header line for a pretty-printed parameter rendering.
pub fn debug_to_kw(text: &Vec<u8>) -> (r: Vec<u8>)
    ensures
        r@ == spec_debug_to_kw(text@),
{
    let lines = split_bytes(text, 10);
    let mut mid: Vec<Vec<u8>> = Vec::new();
    let count = lines.len();
    if count >= 2 {
        let mut i: usize = 1;
        while i < count - 1
            invariant
                1 <= i <= count - 1,
                count == lines.len(),
                count >= 2,
                mid.deep_view() =~~= Seq::new((i - 1) as nat, |j: int| spec_trim(lines.deep_view()[j + 1])),
            decreases count - 1 - i,
        {
            let t = trim_bytes(&lines[i]);
            let ghost t_v = t@;
            let ghost mid_old = mid.deep_view();
            proof {
                assert(lines.deep_view()[i as int] =~= lines@[i as int]@);
            }
            mid.push(t);
            proof {
                assert(mid.deep_view() =~~= mid_old.push(t_v));
                assert(mid_old.push(t_v) =~~= Seq::new(
                    i as nat,
                    |j: int| spec_trim(lines.deep_view()[j + 1]),
                ));
            }
            i = i + 1;
        }
    }
    proof {
        let lv = lines.deep_view();
        let trimmed = Seq::new(lv.len(), |i: int| spec_trim(lv[i]));
        if lv.len() >= 2 {
            assert(mid.deep_view() =~~= trimmed.subrange(1, trimmed.len() - 1));
        } else {
            assert(mid.deep_view() =~~= Seq::<Seq<u8>>::empty());
        }
    }
    let joined = join_bytes(&mid, 59);
    let replaced = replace_colon_space(&joined);
    let trimmed2 = trim_bytes(&replaced);
    let cleaned = remove_commas(&trimmed2);
    cleaned
}

} // verus!
