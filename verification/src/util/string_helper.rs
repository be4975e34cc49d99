use vstd::prelude::*;

verus! {

/// The texts of a list of strings.
pub open spec fn texts(v: Seq<String>) -> Seq<Seq<char>> {
    v.map_values(|s: String| s@)
}

/// The pieces of `s` between its '/' characters, in order: the text before
/// the first '/', then between each two, then after the last one. A string
/// without '/' is one piece, and the empty string is one empty piece.
pub open spec fn split_on_slash(s: Seq<char>) -> Seq<Seq<char>>
    decreases s.len(),
{
    if s.len() == 0 {
        seq![Seq::empty()]
    } else {
        let p = split_on_slash(s.drop_last());
        if s.last() == '/' {
            p.push(Seq::empty())
        } else {
            p.update(p.len() - 1, p.last().push(s.last()))
        }
    }
}

pub proof fn lemma_split_nonempty(s: Seq<char>)
    ensures
        split_on_slash(s).len() >= 1,
    decreases s.len(),
{
    if s.len() > 0 {
        lemma_split_nonempty(s.drop_last());
    }
}

/// Joining a path and a name without '/' by a '/' adds the name as the
/// path's last piece.
pub proof fn lemma_split_join(a: Seq<char>, name: Seq<char>)
    requires
        !name.contains('/'),
    ensures
        split_on_slash(a + seq!['/'] + name) == split_on_slash(a).push(name),
    decreases name.len(),
{
    if name.len() == 0 {
        assert((a + seq!['/'] + name).drop_last() =~= a);
        assert(a + seq!['/'] + name =~= a.push('/'));
        assert(name =~= Seq::<char>::empty());
        assert(a.push('/').drop_last() =~= a);
        assert(a.push('/').last() == '/');
    } else {
        let init = name.drop_last();
        assert(!init.contains('/')) by {
            if init.contains('/') {
                let i = choose|i: int| 0 <= i < init.len() && init[i] == '/';
                assert(name[i] == '/');
            }
        }
        lemma_split_join(a, init);
        let whole = a + seq!['/'] + name;
        assert(whole.drop_last() =~= a + seq!['/'] + init);
        assert(whole.last() == name.last());
        assert(name.last() != '/') by {
            assert(name[name.len() - 1] == name.last());
        }
        assert(init.push(name.last()) =~= name);
        assert(split_on_slash(a).push(init).update(split_on_slash(a).len() as int, name) =~= split_on_slash(a).push(name));
    }
}

/// The number of '/' characters in `s`.
pub open spec fn slash_count(s: Seq<char>) -> nat
    decreases s.len(),
{
    if s.len() == 0 {
        0
    } else {
        slash_count(s.drop_last()) + if s.last() == '/' {
            1nat
        } else {
            0nat
        }
    }
}

/// The pieces joined by '/' between each two.
pub open spec fn join_slash(pieces: Seq<Seq<char>>) -> Seq<char>
    decreases pieces.len(),
{
    if pieces.len() == 0 {
        Seq::empty()
    } else if pieces.len() == 1 {
        pieces[0]
    } else {
        join_slash(pieces.drop_last()) + seq!['/'] + pieces.last()
    }
}

/// A path splits into one more piece than it has '/' characters, no piece
/// holds a '/', and joining the pieces by '/' gives the path back.
pub proof fn lemma_split_rejoin(s: Seq<char>)
    ensures
        split_on_slash(s).len() == slash_count(s) + 1,
        join_slash(split_on_slash(s)) == s,
        forall|i: int| 0 <= i < split_on_slash(s).len() ==> !(#[trigger] split_on_slash(s)[i]).contains('/'),
    decreases s.len(),
{
    if s.len() == 0 {
        assert(split_on_slash(s)[0] =~= Seq::<char>::empty());
        assert(s =~= Seq::<char>::empty());
    } else {
        let init = s.drop_last();
        let c = s.last();
        lemma_split_rejoin(init);
        let p = split_on_slash(init);
        let q = split_on_slash(s);
        if c == '/' {
            assert(q == p.push(Seq::<char>::empty()));
            assert(q.drop_last() =~= p);
            assert(join_slash(q) =~= s);
            assert forall|i: int| 0 <= i < q.len() implies !(#[trigger] q[i]).contains('/') by {
                if i < p.len() {
                    assert(q[i] == p[i]);
                } else {
                    assert(q[i] =~= Seq::<char>::empty());
                }
            }
        } else {
            let x = p.last().push(c);
            assert(q == p.update(p.len() - 1, x));
            if p.len() == 1 {
                assert(join_slash(q) == q[0]);
                assert(q[0] == x);
                assert(join_slash(p) == p[0]);
                assert(p[0] == p.last());
                assert(x =~= s);
            } else {
                assert(q.drop_last() =~= p.drop_last());
                assert(join_slash(q) == join_slash(p.drop_last()) + seq!['/'] + x);
                assert(join_slash(p) == join_slash(p.drop_last()) + seq!['/'] + p.last());
                assert(join_slash(q) =~= join_slash(p).push(c));
                assert(init.push(c) =~= s);
            }
            assert forall|i: int| 0 <= i < q.len() implies !(#[trigger] q[i]).contains('/') by {
                if i < p.len() - 1 {
                    assert(q[i] == p[i]);
                } else {
                    assert(q[i] == x);
                    assert(!p[p.len() - 1].contains('/'));
                    if x.contains('/') {
                        let j = choose|j: int| 0 <= j < x.len() && x[j] == '/';
                        if j < x.len() - 1 {
                            assert(p.last()[j] == '/');
                        }
                    }
                }
            }
        }
    }
}

/// Splits a path at each '/' into its pieces.
pub fn split_path(path: &str) -> (res: Vec<String>)
    ensures
        texts(res@) == split_on_slash(path@),
        res@.len() == slash_count(path@) + 1,
        join_slash(texts(res@)) == path@,
{
    proof {
        lemma_split_rejoin(path@);
    }
    let n = path.unicode_len();
    let mut result: Vec<String> = Vec::new();
    let mut start: usize = 0;
    let mut i: usize = 0;
    assert(texts(result@) =~= Seq::<Seq<char>>::empty());
    assert(path@.subrange(0, 0) =~= Seq::<char>::empty());
    while i < n
        invariant
            n == path@.len(),
            start <= i <= n,
            split_on_slash(path@.subrange(0, i as int)) == texts(result@).push(
                path@.subrange(start as int, i as int),
            ),
        decreases n - i,
    {
        let c = path.get_char(i);
        let ghost prev = path@.subrange(0, i as int);
        proof {
            assert(path@.subrange(0, i + 1).drop_last() =~= prev);
            assert(path@.subrange(0, i + 1).last() == c);
        }
        if c == '/' {
            let piece = path.substring_char(start, i).to_owned();
            result.push(piece);
            i = i + 1;
            start = i;
            assert(texts(result@) =~= split_on_slash(prev));
            assert(path@.subrange(start as int, i as int) =~= Seq::<char>::empty());
        } else {
            i = i + 1;
            assert(path@.subrange(start as int, i as int) =~= path@.subrange(
                start as int,
                i - 1,
            ).push(c));
            assert(split_on_slash(path@.subrange(0, i as int)) =~= texts(result@).push(path@.subrange(start as int, i as int)));
        }
    }
    let last = path.substring_char(start, n).to_owned();
    result.push(last);
    assert(path@.subrange(0, n as int) =~= path@);
    assert(texts(result@) =~= split_on_slash(path@));
    result
}

} // verus!
