use vstd::prelude::*;

verus! {

// ---------------------------------------------------------------------
// ASCII case folding, byte by byte.  Values are UTF-8 byte strings; only
// the ASCII letters are folded, so multi-byte sequences pass through
// untouched and the folding is locale-agnostic.
// ---------------------------------------------------------------------

pub open spec fn is_ascii_lower(b: u8) -> bool {
    97 <= b <= 122
}

pub open spec fn is_ascii_upper(b: u8) -> bool {
    65 <= b <= 90
}

pub open spec fn upper_byte(b: u8) -> u8 {
    if is_ascii_lower(b) {
        (b - 32) as u8
    } else {
        b
    }
}

pub open spec fn lower_byte(b: u8) -> u8 {
    if is_ascii_upper(b) {
        (b + 32) as u8
    } else {
        b
    }
}

pub open spec fn upper_seq(s: Seq<u8>) -> Seq<u8> {
    s.map_values(|b: u8| upper_byte(b))
}

pub open spec fn lower_seq(s: Seq<u8>) -> Seq<u8> {
    s.map_values(|b: u8| lower_byte(b))
}

/// ASCII-aware uppercase folding of a byte string.
pub fn to_uppercase_bytes(v: &Vec<u8>) -> (r: Vec<u8>)
    ensures
        r@ == upper_seq(v@),
{
    let mut r: Vec<u8> = Vec::new();
    let mut i: usize = 0;
    while i < v.len()
        invariant
            i <= v.len(),
            r@ == upper_seq(v@.take(i as int)),
        decreases v.len() - i,
    {
        let b = v[i];
        if 97 <= b && b <= 122 {
            r.push(b - 32);
        } else {
            r.push(b);
        }
        proof {
            assert(v@.take(i + 1) =~= v@.take(i as int).push(v@[i as int]));
            assert(upper_seq(v@.take(i + 1)) =~= upper_seq(v@.take(i as int)).push(
                upper_byte(v@[i as int]),
            ));
        }
        i = i + 1;
    }
    proof {
        assert(v@.take(v@.len() as int) =~= v@);
    }
    r
}

/// ASCII-aware lowercase folding of a byte string.
pub fn to_lowercase_bytes(v: &Vec<u8>) -> (r: Vec<u8>)
    ensures
        r@ == lower_seq(v@),
{
    let mut r: Vec<u8> = Vec::new();
    let mut i: usize = 0;
    while i < v.len()
        invariant
            i <= v.len(),
            r@ == lower_seq(v@.take(i as int)),
        decreases v.len() - i,
    {
        let b = v[i];
        if 65 <= b && b <= 90 {
            r.push(b + 32);
        } else {
            r.push(b);
        }
        proof {
            assert(v@.take(i + 1) =~= v@.take(i as int).push(v@[i as int]));
            assert(lower_seq(v@.take(i + 1)) =~= lower_seq(v@.take(i as int)).push(
                lower_byte(v@[i as int]),
            ));
        }
        i = i + 1;
    }
    proof {
        assert(v@.take(v@.len() as int) =~= v@);
    }
    r
}

// ---------------------------------------------------------------------
// Title case: the first letter of each whitespace-separated word is
// uppercased, the rest of the word is lowercased.
// ---------------------------------------------------------------------

/// Word separators for title casing: space and horizontal tab.
pub open spec fn is_word_sep(b: u8) -> bool {
    b == 32 || b == 9
}

/// Title-cases `s` given whether the next byte starts a word.
pub open spec fn title_acc(s: Seq<u8>, at_word_start: bool) -> Seq<u8>
    decreases s.len(),
{
    if s.len() == 0 {
        Seq::empty()
    } else if is_word_sep(s[0]) {
        seq![s[0]] + title_acc(s.drop_first(), true)
    } else if at_word_start {
        seq![upper_byte(s[0])] + title_acc(s.drop_first(), false)
    } else {
        seq![lower_byte(s[0])] + title_acc(s.drop_first(), false)
    }
}

pub open spec fn title_seq(s: Seq<u8>) -> Seq<u8> {
    title_acc(s, true)
}

/// Title-cases a byte string: each whitespace-separated word gets an
/// uppercased first byte and a lowercased remainder.
pub fn to_titlecase_bytes(v: &Vec<u8>) -> (r: Vec<u8>)
    ensures
        r@ == title_seq(v@),
{
    let mut r: Vec<u8> = Vec::new();
    let mut at_word_start: bool = true;
    let mut i: usize = 0;
    proof {
        assert(v@.skip(0) =~= v@);
        assert(Seq::<u8>::empty() + title_acc(v@, true) =~= title_acc(v@, true));
    }
    while i < v.len()
        invariant
            i <= v.len(),
            title_seq(v@) == r@ + title_acc(v@.skip(i as int), at_word_start),
        decreases v.len() - i,
    {
        let b = v[i];
        proof {
            assert(v@.skip(i as int).len() > 0);
            assert(v@.skip(i as int)[0] == v@[i as int]);
            assert(v@.skip(i as int).drop_first() =~= v@.skip(i + 1));
        }
        if b == 32 || b == 9 {
            r.push(b);
            at_word_start = true;
        } else if at_word_start {
            if 97 <= b && b <= 122 {
                r.push(b - 32);
            } else {
                r.push(b);
            }
            at_word_start = false;
        } else {
            if 65 <= b && b <= 90 {
                r.push(b + 32);
            } else {
                r.push(b);
            }
            at_word_start = false;
        }
        i = i + 1;
    }
    proof {
        assert(v@.skip(v@.len() as int) =~= Seq::<u8>::empty());
    }
    r
}

// ---------------------------------------------------------------------
// Splitting on a delimiter byte and joining back.
// ---------------------------------------------------------------------

/// Splits `s` on the delimiter `d`, with `cur` the field read so far.
pub open spec fn split_acc(s: Seq<u8>, d: u8, cur: Seq<u8>) -> Seq<Seq<u8>>
    decreases s.len(),
{
    if s.len() == 0 {
        seq![cur]
    } else if s[0] == d {
        seq![cur] + split_acc(s.drop_first(), d, Seq::empty())
    } else {
        split_acc(s.drop_first(), d, cur.push(s[0]))
    }
}

/// The fields of `s` split on the delimiter `d`; always at least one field.
pub open spec fn split_bytes(s: Seq<u8>, d: u8) -> Seq<Seq<u8>> {
    split_acc(s, d, Seq::empty())
}

pub proof fn lemma_split_acc_len(s: Seq<u8>, d: u8, cur: Seq<u8>)
    ensures
        split_acc(s, d, cur).len() >= 1,
    decreases s.len(),
{
    if s.len() == 0 {
    } else if s[0] == d {
    } else {
        lemma_split_acc_len(s.drop_first(), d, cur.push(s[0]));
    }
}

/// Splits a byte string on the delimiter `d`.
pub fn split_vec(v: &Vec<u8>, d: u8) -> (r: Vec<Vec<u8>>)
    ensures
        r.deep_view() == split_bytes(v@, d),
        r.len() >= 1,
{
    let mut parts: Vec<Vec<u8>> = Vec::new();
    let mut cur: Vec<u8> = Vec::new();
    let mut i: usize = 0;
    proof {
        assert(v@.skip(0) =~= v@);
        assert(parts.deep_view() =~= Seq::<Seq<u8>>::empty());
        assert(parts.deep_view() + split_acc(v@, d, cur@) =~= split_acc(v@, d, cur@));
        assert(cur@ =~= Seq::<u8>::empty());
    }
    while i < v.len()
        invariant
            i <= v.len(),
            split_bytes(v@, d) == parts.deep_view() + split_acc(v@.skip(i as int), d, cur@),
        decreases v.len() - i,
    {
        let b = v[i];
        proof {
            assert(v@.skip(i as int).len() > 0);
            assert(v@.skip(i as int)[0] == v@[i as int]);
            assert(v@.skip(i as int).drop_first() =~= v@.skip(i + 1));
        }
        if b == d {
            let ghost old_parts = parts.deep_view();
            let ghost old_cur = cur@;
            parts.push(cur);
            cur = Vec::new();
            proof {
                assert(parts.deep_view() =~~= old_parts.push(old_cur));
                assert(old_parts.push(old_cur) + split_acc(v@.skip(i + 1), d, Seq::empty())
                    =~= old_parts + (seq![old_cur] + split_acc(v@.skip(i + 1), d, Seq::empty())));
            }
        } else {
            proof {
                assert(cur@.push(b) == cur@.push(v@[i as int]));
            }
            cur.push(b);
        }
        i = i + 1;
    }
    proof {
        assert(v@.skip(v@.len() as int) =~= Seq::<u8>::empty());
        lemma_split_acc_len(v@, d, Seq::empty());
    }
    let ghost old_parts = parts.deep_view();
    let ghost old_cur = cur@;
    parts.push(cur);
    proof {
        assert(parts.deep_view() =~~= old_parts.push(old_cur));
        assert(old_parts.push(old_cur) =~= old_parts + seq![old_cur]);
    }
    parts
}

/// Splitting is a left fold over the bytes: splitting `a + b` yields
/// the complete fields of `a` and then the split of `b` seeded with
/// `a`'s unfinished last field.  This lets input be split incrementally,
/// chunk by chunk, with only the unfinished field carried over.
pub proof fn lemma_split_chain(a: Seq<u8>, b: Seq<u8>, d: u8, cur: Seq<u8>)
    ensures
        split_acc(a + b, d, cur) == split_acc(a, d, cur).drop_last() + split_acc(
            b,
            d,
            split_acc(a, d, cur).last(),
        ),
    decreases a.len(),
{
    lemma_split_acc_len(a, d, cur);
    if a.len() == 0 {
        assert(a + b =~= b);
        assert(split_acc(a, d, cur) == seq![cur]);
        assert(split_acc(a, d, cur).drop_last() =~= Seq::<Seq<u8>>::empty());
        assert(split_acc(a, d, cur).last() == cur);
        assert(split_acc(a + b, d, cur) =~= split_acc(a, d, cur).drop_last() + split_acc(
            b,
            d,
            cur,
        ));
    } else {
        assert((a + b).len() > 0);
        assert((a + b)[0] == a[0]);
        assert((a + b).drop_first() =~= a.drop_first() + b);
        if a[0] == d {
            lemma_split_chain(a.drop_first(), b, d, Seq::empty());
            lemma_split_acc_len(a.drop_first(), d, Seq::empty());
            let inner = split_acc(a.drop_first(), d, Seq::empty());
            assert(split_acc(a, d, cur) == seq![cur] + inner);
            assert(split_acc(a, d, cur).last() == inner.last());
            assert(split_acc(a, d, cur).drop_last() =~= seq![cur] + inner.drop_last());
            assert(split_acc(a + b, d, cur) == seq![cur] + split_acc(
                a.drop_first() + b,
                d,
                Seq::empty(),
            ));
            assert(seq![cur] + (inner.drop_last() + split_acc(b, d, inner.last())) =~= (
            seq![cur] + inner.drop_last()) + split_acc(b, d, inner.last()));
        } else {
            lemma_split_chain(a.drop_first(), b, d, cur.push(a[0]));
            assert(split_acc(a, d, cur) == split_acc(a.drop_first(), d, cur.push(a[0])));
            assert(split_acc(a + b, d, cur) == split_acc(a.drop_first() + b, d, cur.push(a[0])));
        }
    }
}

/// A byte string free of the delimiter splits into itself appended to
/// the open field.
pub proof fn lemma_split_acc_free(s: Seq<u8>, d: u8, cur: Seq<u8>)
    requires
        !s.contains(d),
    ensures
        split_acc(s, d, cur) == seq![cur + s],
    decreases s.len(),
{
    if s.len() == 0 {
        assert(cur + s =~= cur);
    } else {
        assert(s[0] != d);
        lemma_split_acc_free(s.drop_first(), d, cur.push(s[0]));
        assert(cur.push(s[0]) + s.drop_first() =~= cur + s);
    }
}

/// The last part of a split never contains the delimiter.
pub proof fn lemma_split_last_free(s: Seq<u8>, d: u8, cur: Seq<u8>)
    requires
        !cur.contains(d),
    ensures
        !split_acc(s, d, cur).last().contains(d),
    decreases s.len(),
{
    lemma_split_acc_len(s, d, cur);
    if s.len() == 0 {
    } else if s[0] == d {
        lemma_split_last_free(s.drop_first(), d, Seq::empty());
        lemma_split_acc_len(s.drop_first(), d, Seq::empty());
        assert(split_acc(s, d, cur).last() == split_acc(s.drop_first(), d, Seq::empty()).last());
    } else {
        assert forall|q: int| 0 <= q < cur.push(s[0]).len() implies cur.push(s[0])[q] != d by {
            if q < cur.len() {
                assert(!cur.contains(d));
            }
        }
        assert(!cur.push(s[0]).contains(d));
        lemma_split_last_free(s.drop_first(), d, cur.push(s[0]));
    }
}

/// Feeding the input through in chunks splits it exactly as splitting
/// the whole would: the complete fields of `seen + chunk` are those of
/// `seen` followed by the complete fields of `seen`'s unfinished last
/// part ahead of `chunk`, and the unfinished parts agree too.  This is
/// the law behind incremental line splitting.
pub proof fn lemma_split_feed(seen: Seq<u8>, chunk: Seq<u8>, d: u8)
    ensures
        split_bytes(seen + chunk, d).drop_last() == split_bytes(seen, d).drop_last()
            + split_bytes(split_bytes(seen, d).last() + chunk, d).drop_last(),
        split_bytes(seen + chunk, d).last() == split_bytes(
            split_bytes(seen, d).last() + chunk,
            d,
        ).last(),
{
    let pre = split_bytes(seen, d).last();
    lemma_split_last_free(seen, d, Seq::empty());
    lemma_split_chain(seen, chunk, d, Seq::empty());
    // Splitting `pre + chunk` restarts exactly where `seen` left off.
    lemma_split_chain(pre, chunk, d, Seq::empty());
    lemma_split_acc_free(pre, d, Seq::empty());
    assert(Seq::<u8>::empty() + pre =~= pre);
    assert(split_bytes(pre, d) == seq![pre]);
    assert(split_bytes(pre, d).drop_last() =~= Seq::<Seq<u8>>::empty());
    assert(split_bytes(pre + chunk, d) =~= split_acc(chunk, d, pre));
    let rest = split_acc(chunk, d, pre);
    lemma_split_acc_len(chunk, d, pre);
    assert(split_bytes(seen + chunk, d) == split_bytes(seen, d).drop_last() + rest);
    assert((split_bytes(seen, d).drop_last() + rest).drop_last() =~= split_bytes(
        seen,
        d,
    ).drop_last() + rest.drop_last());
    assert((split_bytes(seen, d).drop_last() + rest).last() == rest.last());
}

/// The fields joined back with the delimiter `d` between them.
pub open spec fn join_bytes(parts: Seq<Seq<u8>>, d: u8) -> Seq<u8>
    decreases parts.len(),
{
    if parts.len() == 0 {
        Seq::empty()
    } else if parts.len() == 1 {
        parts[0]
    } else {
        parts[0] + seq![d] + join_bytes(parts.drop_first(), d)
    }
}

pub proof fn lemma_join_push(parts: Seq<Seq<u8>>, p: Seq<u8>, d: u8)
    ensures
        parts.len() == 0 ==> join_bytes(parts.push(p), d) == p,
        parts.len() > 0 ==> join_bytes(parts.push(p), d) == join_bytes(parts, d) + seq![d] + p,
    decreases parts.len(),
{
    if parts.len() == 0 {
        assert(parts.push(p)[0] == p);
        assert(join_bytes(parts.push(p), d) == p);
    } else if parts.len() == 1 {
        assert(parts.push(p).drop_first() =~= seq![p]);
        assert(parts.push(p)[0] == parts[0]);
        assert(join_bytes(seq![p], d) == p);
        assert(join_bytes(parts.push(p), d) == parts[0] + seq![d] + p);
    } else {
        lemma_join_push(parts.drop_first(), p, d);
        assert(parts.push(p).drop_first() =~= parts.drop_first().push(p));
        assert(parts.push(p)[0] == parts[0]);
        assert(join_bytes(parts, d) + seq![d] + p =~= parts[0] + seq![d] + (join_bytes(
            parts.drop_first(),
            d,
        ) + seq![d] + p));
    }
}

/// Joins byte strings with the delimiter `d` between consecutive parts.
pub fn join_vec(parts: &Vec<Vec<u8>>, d: u8) -> (r: Vec<u8>)
    ensures
        r@ == join_bytes(parts.deep_view(), d),
{
    let mut r: Vec<u8> = Vec::new();
    let mut i: usize = 0;
    while i < parts.len()
        invariant
            i <= parts.len(),
            r@ == join_bytes(parts.deep_view().take(i as int), d),
        decreases parts.len() - i,
    {
        let ghost prefix = parts.deep_view().take(i as int);
        if i > 0 {
            r.push(d);
        }
        let part = &parts[i];
        let mut j: usize = 0;
        let ghost r_before = r@;
        while j < part.len()
            invariant
                j <= part.len(),
                r@ == r_before + part@.take(j as int),
            decreases part.len() - j,
        {
            r.push(part[j]);
            proof {
                assert(part@.take(j + 1) =~= part@.take(j as int).push(part@[j as int]));
            }
            j = j + 1;
        }
        proof {
            assert(part@.take(part@.len() as int) =~= part@);
            assert(parts.deep_view().take(i + 1) =~= prefix.push(parts[i as int].deep_view()));
            assert(parts[i as int].deep_view() == part@);
            lemma_join_push(prefix, part@, d);
            if i == 0 {
                assert(r@ =~= join_bytes(prefix.push(part@), d));
            } else {
                assert(prefix.len() > 0);
                assert(r@ =~= join_bytes(prefix, d) + seq![d] + part@);
            }
        }
        i = i + 1;
    }
    proof {
        assert(parts.deep_view().take(parts.deep_view().len() as int) =~= parts.deep_view());
    }
    r
}

} // verus!
